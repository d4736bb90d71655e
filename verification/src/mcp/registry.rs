//! The registry of MCP servers.

use vstd::prelude::*;

use crate::json::JsonDoc;
use crate::text::{clone_text, optional_text, text_eq, texts};
use crate::tree::{is_json, Tree};
use crate::value::Datum;

verus! {

/// The applications that use a server.
#[derive(Debug, Clone, Copy, PartialEq, Eq, Structural)]
pub struct McpApps {
    pub claude: bool,
    pub codex: bool,
    pub gemini: bool,
    pub opencode: bool,
    pub hermes: bool,
    pub dsh: bool,
    pub zcode: bool,
}

/// No application.
pub open spec fn no_apps() -> McpApps {
    McpApps {
        claude: false,
        codex: false,
        gemini: false,
        opencode: false,
        hermes: false,
        dsh: false,
        zcode: false,
    }
}

/// An application whose file this library keeps in step with the registry.
#[derive(Debug, Clone, Copy, PartialEq, Eq, Structural)]
pub enum App {
    Dsh,
    Zcode,
}

/// The application uses the server.
pub open spec fn uses(apps: McpApps, app: App) -> bool {
    match app {
        App::Dsh => apps.dsh,
        App::Zcode => apps.zcode,
    }
}

/// The applications, and one more.
pub open spec fn with_app(apps: McpApps, app: App) -> McpApps {
    match app {
        App::Dsh => McpApps { dsh: true, ..apps },
        App::Zcode => McpApps { zcode: true, ..apps },
    }
}

impl Default for McpApps {
    fn default() -> (r: Self)
        ensures
            r == no_apps(),
    {
        McpApps {
            claude: false,
            codex: false,
            gemini: false,
            opencode: false,
            hermes: false,
            dsh: false,
            zcode: false,
        }
    }
}

impl McpApps {
    /// Whether an application uses the server.
    pub fn has(&self, app: App) -> (r: bool)
        ensures
            r == uses(*self, app),
    {
        match app {
            App::Dsh => self.dsh,
            App::Zcode => self.zcode,
        }
    }

    /// The applications, and one more.
    pub fn with(self, app: App) -> (r: McpApps)
        ensures
            r == with_app(self, app),
    {
        let mut apps = self;
        match app {
            App::Dsh => {
                apps.dsh = true;
            },
            App::Zcode => {
                apps.zcode = true;
            },
        }
        apps
    }
}

/// A server of the registry.
#[derive(Debug)]
pub struct McpServer {
    pub id: String,
    pub name: String,
    /// How the server is reached, as a JSON object.
    pub server: JsonDoc,
    pub apps: McpApps,
    pub description: Option<String>,
    pub homepage: Option<String>,
    pub docs: Option<String>,
    pub tags: Vec<String>,
}

/// The content of an [`McpServer`].
pub struct ServerView {
    pub id: Seq<char>,
    pub name: Seq<char>,
    pub server: Tree,
    pub apps: McpApps,
    pub description: Option<Seq<char>>,
    pub homepage: Option<Seq<char>>,
    pub docs: Option<Seq<char>>,
    pub tags: Seq<Seq<char>>,
}

impl View for McpServer {
    type V = ServerView;

    open spec fn view(&self) -> ServerView {
        ServerView {
            id: self.id@,
            name: self.name@,
            server: self.server@,
            apps: self.apps,
            description: optional_text(self.description),
            homepage: optional_text(self.homepage),
            docs: optional_text(self.docs),
            tags: texts(self.tags@),
        }
    }
}

/// A server that was found in the file of an application: that application alone
/// uses it.
pub open spec fn found_server(id: Seq<char>, spec: Tree, app: App) -> ServerView {
    ServerView {
        id,
        name: id,
        server: spec,
        apps: with_app(no_apps(), app),
        description: None,
        homepage: None,
        docs: None,
        tags: Seq::empty(),
    }
}

impl Clone for McpServer {
    fn clone(&self) -> (r: Self)
        ensures
            r@ == self@,
    {
        let mut tags: Vec<String> = Vec::new();
        let mut i: usize = 0;
        while i < self.tags.len()
            invariant
                i <= self.tags@.len(),
                tags@.len() == i,
                forall|j: int| 0 <= j < i ==> (#[trigger] tags@[j])@ == self.tags@[j]@,
            decreases self.tags@.len() - i,
        {
            tags.push(self.tags[i].clone());
            i += 1;
        }
        assert(texts(tags@) =~= texts(self.tags@));
        McpServer {
            id: self.id.clone(),
            name: self.name.clone(),
            server: self.server.clone(),
            apps: self.apps,
            description: clone_text(&self.description),
            homepage: clone_text(&self.homepage),
            docs: clone_text(&self.docs),
            tags,
        }
    }
}

impl McpServer {
    /// A server that was found in the file of an application.
    pub fn found(id: &str, spec: Datum, app: App) -> (r: McpServer)
        requires
            is_json(spec@),
        ensures
            r@ == found_server(id@, spec@, app),
    {
        let r = McpServer {
            id: id.to_owned(),
            name: id.to_owned(),
            server: JsonDoc::new(spec),
            apps: McpApps::default().with(app),
            description: None,
            homepage: None,
            docs: None,
            tags: Vec::new(),
        };
        assert(texts(r.tags@) =~= Seq::<Seq<char>>::empty());
        r
    }
}

/// The registry with a server that was found in the file of an application: a
/// server that it has already is used by the application from now on, and stays as
/// it is otherwise.
pub open spec fn registered(
    reg: Map<Seq<char>, ServerView>,
    id: Seq<char>,
    spec: Tree,
    app: App,
) -> Map<Seq<char>, ServerView> {
    if reg.dom().contains(id) {
        reg.insert(id, ServerView { apps: with_app(reg[id].apps, app), ..reg[id] })
    } else {
        reg.insert(id, found_server(id, spec, app))
    }
}

/// It is news to the registry that an application uses a server.
pub open spec fn is_news(reg: Map<Seq<char>, ServerView>, id: Seq<char>, app: App) -> bool {
    !reg.dom().contains(id) || !uses(reg[id].apps, app)
}

/// The registry with the servers that were found in the file of an application.
pub open spec fn imported(
    reg: Map<Seq<char>, ServerView>,
    found: Seq<(Seq<char>, Tree)>,
    app: App,
) -> Map<Seq<char>, ServerView>
    decreases found.len(),
{
    if found.len() == 0 {
        reg
    } else {
        registered(imported(reg, found.drop_last(), app), found.last().0, found.last().1, app)
    }
}

/// How often the servers that were found are news to the registry.
pub open spec fn news_count(
    reg: Map<Seq<char>, ServerView>,
    found: Seq<(Seq<char>, Tree)>,
    app: App,
) -> nat
    decreases found.len(),
{
    if found.len() == 0 {
        0
    } else {
        let before = imported(reg, found.drop_last(), app);
        news_count(reg, found.drop_last(), app) + (if is_news(before, found.last().0, app) {
            1nat
        } else {
            0nat
        })
    }
}

/// After an import the application uses every server that was found; a server that
/// was there keeps everything else.
pub proof fn law_import_enables(
    reg: Map<Seq<char>, ServerView>,
    found: Seq<(Seq<char>, Tree)>,
    app: App,
)
    ensures
        forall|i: int|
            0 <= i < found.len() ==> imported(reg, found, app).dom().contains(
                (#[trigger] found[i]).0,
            ) && uses(imported(reg, found, app)[found[i].0].apps, app),
        forall|id: Seq<char>| #[trigger]
            reg.dom().contains(id) ==> imported(reg, found, app).dom().contains(id) && (imported(
                reg,
                found,
                app,
            )[id] == reg[id] || imported(reg, found, app)[id] == (ServerView {
                apps: with_app(reg[id].apps, app),
                ..reg[id]
            })),
    decreases found.len(),
{
    if found.len() > 0 {
        law_import_enables(reg, found.drop_last(), app);
        let before = imported(reg, found.drop_last(), app);
        let after = imported(reg, found, app);
        assert forall|i: int| 0 <= i < found.len() implies after.dom().contains(
            (#[trigger] found[i]).0,
        ) && uses(after[found[i].0].apps, app) by {
            if i < found.len() - 1 {
                assert(found.drop_last()[i] == found[i]);
            }
        }
        assert forall|id: Seq<char>| #[trigger] reg.dom().contains(id) implies after.dom().contains(id)
            && (after[id] == reg[id] || after[id] == (ServerView {
            apps: with_app(reg[id].apps, app),
            ..reg[id]
        })) by {
            assert(before.dom().contains(id));
        }
    }
}

/// Importing the same servers a second time changes nothing.
pub proof fn law_import_twice(
    reg: Map<Seq<char>, ServerView>,
    found: Seq<(Seq<char>, Tree)>,
    app: App,
)
    ensures
        imported(imported(reg, found, app), found, app) == imported(reg, found, app),
        news_count(imported(reg, found, app), found, app) == 0,
{
    law_import_enables(reg, found, app);
    lemma_import_known(imported(reg, found, app), found, app);
}

/// Importing servers that the application is known to use changes nothing.
proof fn lemma_import_known(
    reg: Map<Seq<char>, ServerView>,
    found: Seq<(Seq<char>, Tree)>,
    app: App,
)
    requires
        forall|i: int|
            0 <= i < found.len() ==> reg.dom().contains((#[trigger] found[i]).0) && uses(
                reg[found[i].0].apps,
                app,
            ),
    ensures
        imported(reg, found, app) == reg,
        news_count(reg, found, app) == 0,
    decreases found.len(),
{
    if found.len() > 0 {
        assert forall|i: int| 0 <= i < found.drop_last().len() implies reg.dom().contains(
            (#[trigger] found.drop_last()[i]).0,
        ) && uses(reg[found.drop_last()[i].0].apps, app) by {
            assert(found.drop_last()[i] == found[i]);
        }
        lemma_import_known(reg, found.drop_last(), app);
        let last = found[found.len() - 1];
        assert(found.last() == last);
        assert(with_app(reg[last.0].apps, app) == reg[last.0].apps);
        assert(registered(reg, last.0, last.1, app) =~= reg);
    }
}

/// Servers by id. Each id occurs once.
#[derive(Debug)]
pub struct ServerMap {
    pub entries: Vec<(String, McpServer)>,
}

/// The entry at position `i` has the id `id`.
pub open spec fn id_at(entries: Seq<(String, McpServer)>, id: Seq<char>, i: int) -> bool {
    0 <= i < entries.len() && entries[i].0@ == id
}

/// Some entry has the id `id`.
pub open spec fn has_id(entries: Seq<(String, McpServer)>, id: Seq<char>) -> bool {
    exists|i: int| #[trigger] id_at(entries, id, i)
}

/// The position of the entry with the id `id`.
pub open spec fn position_of(entries: Seq<(String, McpServer)>, id: Seq<char>) -> int {
    choose|i: int| #[trigger] id_at(entries, id, i)
}

impl View for ServerMap {
    type V = Map<Seq<char>, ServerView>;

    open spec fn view(&self) -> Map<Seq<char>, ServerView> {
        Map::new(
            |id: Seq<char>| has_id(self.entries@, id),
            |id: Seq<char>| self.entries@[position_of(self.entries@, id)].1@,
        )
    }
}

/// The number of servers that an application uses.
pub open spec fn use_count(entries: Seq<(String, McpServer)>, app: App) -> nat
    decreases entries.len(),
{
    if entries.len() == 0 {
        0
    } else {
        use_count(entries.drop_last(), app) + (if uses(entries.last().1.apps, app) {
            1nat
        } else {
            0nat
        })
    }
}

proof fn lemma_use_count(entries: Seq<(String, McpServer)>, app: App)
    ensures
        use_count(entries, app) <= entries.len(),
    decreases entries.len(),
{
    if entries.len() > 0 {
        lemma_use_count(entries.drop_last(), app);
    }
}

proof fn lemma_use_count_update(
    entries: Seq<(String, McpServer)>,
    i: int,
    e: (String, McpServer),
    app: App,
)
    requires
        0 <= i < entries.len(),
        !uses(entries[i].1.apps, app),
        uses(e.1.apps, app),
    ensures
        use_count(entries.update(i, e), app) == use_count(entries, app) + 1,
    decreases entries.len(),
{
    let n = entries.len() - 1;
    if i == n {
        assert(entries.update(i, e).drop_last() =~= entries.drop_last());
    } else {
        assert(entries.update(i, e).drop_last() =~= entries.drop_last().update(i, e));
        lemma_use_count_update(entries.drop_last(), i, e, app);
    }
}

impl ServerMap {
    /// Each id occurs once.
    pub open spec fn wf(self) -> bool {
        forall|i: int, j: int|
            0 <= i < self.entries@.len() && 0 <= j < self.entries@.len() && i != j ==> (
            #[trigger] self.entries@[i]).0@ != (#[trigger] self.entries@[j]).0@
    }

    /// A registry without servers.
    pub fn new() -> (r: ServerMap)
        ensures
            r.wf(),
            r@ == Map::<Seq<char>, ServerView>::empty(),
    {
        let r = ServerMap { entries: Vec::new() };
        assert(r@ =~= Map::<Seq<char>, ServerView>::empty());
        r
    }

    /// The number of servers.
    pub fn len(&self) -> (r: usize)
        ensures
            r == self.entries@.len(),
    {
        self.entries.len()
    }

    fn position(&self, id: &str) -> (r: Option<usize>)
        requires
            self.wf(),
        ensures
            match r {
                Some(i) => id_at(self.entries@, id@, i as int) && self@.dom().contains(id@)
                    && self@[id@] == self.entries@[i as int].1@,
                None => !self@.dom().contains(id@),
            },
    {
        let mut i: usize = 0;
        while i < self.entries.len()
            invariant
                i <= self.entries@.len(),
                self.wf(),
                forall|j: int| 0 <= j < i ==> !(#[trigger] id_at(self.entries@, id@, j)),
            decreases self.entries@.len() - i,
        {
            if text_eq(self.entries[i].0.as_str(), id) {
                proof {
                    assert(id_at(self.entries@, id@, i as int));
                    assert(id_at(self.entries@, id@, position_of(self.entries@, id@)));
                }
                return Some(i);
            }
            i += 1;
        }
        assert(forall|j: int| !(#[trigger] id_at(self.entries@, id@, j)));
        None
    }

    /// The server of an id.
    pub fn get(&self, id: &str) -> (r: Option<&McpServer>)
        requires
            self.wf(),
        ensures
            match r {
                Some(s) => self@.dom().contains(id@) && self@[id@] == s@,
                None => !self@.dom().contains(id@),
            },
    {
        match self.position(id) {
            Some(i) => Some(&self.entries[i].1),
            None => None,
        }
    }

    /// Whether there is a server of an id.
    pub fn contains_key(&self, id: &str) -> (r: bool)
        requires
            self.wf(),
        ensures
            r == self@.dom().contains(id@),
    {
        self.position(id).is_some()
    }

    /// Puts a server under an id, in place of the one that is there.
    pub fn insert(&mut self, id: &str, server: McpServer)
        requires
            old(self).wf(),
        ensures
            final(self).wf(),
            final(self)@ == old(self)@.insert(id@, server@),
            !old(self)@.dom().contains(id@) ==> final(self).entries@.len() == old(self).entries@.len()
                + 1 && forall|app: App| #[trigger]
                use_count(final(self).entries@, app) == use_count(old(self).entries@, app) + (if uses(
                    server.apps,
                    app,
                ) {
                    1nat
                } else {
                    0nat
                }),
    {
        let ghost before = self.entries@;
        match self.position(id) {
            Some(i) => {
                self.entries.set(i, (id.to_owned(), server));
                proof {
                    lemma_updated(before, self.entries@, i as int, id@);
                }
                assert(self@ =~= old(self)@.insert(id@, server@));
            },
            None => {
                self.entries.push((id.to_owned(), server));
                proof {
                    let after = self.entries@;
                    assert(after.drop_last() =~= before);
                    assert forall|j: int| 0 <= j < before.len() implies (#[trigger] before[j]).0@ != id@ by {
                        assert(!id_at(before, id@, j));
                    }
                    assert forall|k: Seq<char>| #[trigger] self@.dom().contains(k) == old(
                        self,
                    )@.insert(id@, server@).dom().contains(k) by {
                        if k == id@ {
                            assert(id_at(after, k, before.len() as int));
                        }
                        if old(self)@.dom().contains(k) {
                            let j = position_of(before, k);
                            assert(id_at(before, k, j));
                            assert(id_at(after, k, j));
                        }
                        if self@.dom().contains(k) && k != id@ {
                            let j = position_of(after, k);
                            assert(id_at(after, k, j));
                            assert(id_at(before, k, j));
                        }
                    }
                    assert forall|k: Seq<char>| #[trigger] self@.dom().contains(k) implies self@[k]
                        == old(self)@.insert(id@, server@)[k] by {
                        assert(id_at(after, k, position_of(after, k)));
                        if k != id@ {
                            assert(id_at(before, k, position_of(after, k)));
                            assert(id_at(before, k, position_of(before, k)));
                        }
                    }
                    assert(self@ =~= old(self)@.insert(id@, server@));
                }
            },
        }
    }

    /// Takes note that an application uses the server of an id. Tells whether it
    /// did not before.
    pub fn enable(&mut self, id: &str, app: App) -> (r: bool)
        requires
            old(self).wf(),
            old(self)@.dom().contains(id@),
        ensures
            final(self).wf(),
            r == !uses(old(self)@[id@].apps, app),
            final(self)@ == old(self)@.insert(
                id@,
                ServerView {
                    apps: with_app(old(self)@[id@].apps, app),
                    ..old(self)@[id@]
                },
            ),
            final(self).entries@.len() == old(self).entries@.len(),
            r ==> use_count(final(self).entries@, app) == use_count(old(self).entries@, app) + 1,
            !r ==> use_count(final(self).entries@, app) == use_count(old(self).entries@, app),
    {
        let ghost before = self.entries@;
        match self.position(id) {
            Some(i) => {
                if self.entries[i].1.apps.has(app) {
                    assert(self@ =~= self@.insert(
                        id@,
                        ServerView { apps: with_app(self@[id@].apps, app), ..self@[id@] },
                    ));
                    false
                } else {
                    let mut server = self.entries[i].1.clone();
                    server.apps = server.apps.with(app);
                    self.entries.set(i, (id.to_owned(), server));
                    proof {
                        lemma_use_count_update(before, i as int, self.entries@[i as int], app);
                        assert(self.entries@ =~= before.update(i as int, self.entries@[i as int]));
                        lemma_updated(before, self.entries@, i as int, id@);
                    }
                    assert(self@ =~= old(self)@.insert(
                        id@,
                        ServerView { apps: with_app(old(self)@[id@].apps, app), ..old(self)@[id@] },
                    ));
                    true
                }
            },
            None => false,
        }
    }

    /// Takes a server that was found in the file of an application into the
    /// registry. Tells whether that is news.
    pub fn register(&mut self, id: &str, spec: Datum, app: App) -> (r: bool)
        requires
            old(self).wf(),
            is_json(spec@),
        ensures
            final(self).wf(),
            r == is_news(old(self)@, id@, app),
            final(self)@ == registered(old(self)@, id@, spec@, app),
            use_count(final(self).entries@, app) == use_count(old(self).entries@, app) + (if r {
                1nat
            } else {
                0nat
            }),
    {
        if self.contains_key(id) {
            self.enable(id, app)
        } else {
            self.insert(id, McpServer::found(id, spec, app));
            true
        }
    }

    /// There are at least as many servers as an application uses.
    pub proof fn lemma_use_count(&self, app: App)
        ensures
            use_count(self.entries@, app) <= self.entries@.len(),
    {
        lemma_use_count(self.entries@, app);
    }
}

/// Replacing the entry of an id leaves the other ids where they are.
proof fn lemma_updated(
    before: Seq<(String, McpServer)>,
    after: Seq<(String, McpServer)>,
    i: int,
    id: Seq<char>,
)
    requires
        id_at(before, id, i),
        id_at(after, id, i),
        after.len() == before.len(),
        forall|j: int| 0 <= j < before.len() && j != i ==> #[trigger] after[j] == before[j],
        forall|j: int, k: int|
            0 <= j < before.len() && 0 <= k < before.len() && j != k ==> (#[trigger] before[j]).0@ != (
            #[trigger] before[k]).0@,
    ensures
        forall|j: int, k: int|
            0 <= j < after.len() && 0 <= k < after.len() && j != k ==> (#[trigger] after[j]).0@ != (
            #[trigger] after[k]).0@,
        forall|k: Seq<char>| #[trigger] has_id(after, k) == has_id(before, k),
        forall|k: Seq<char>|
            has_id(before, k) ==> #[trigger] position_of(after, k) == position_of(before, k),
{
    assert forall|j: int, k: int|
        0 <= j < after.len() && 0 <= k < after.len() && j != k implies (#[trigger] after[j]).0@ != (
    #[trigger] after[k]).0@ by {
        assert(before[j].0@ == after[j].0@);
        assert(before[k].0@ == after[k].0@);
    }
    assert forall|k: Seq<char>, j: int| #[trigger] id_at(after, k, j) == id_at(before, k, j) by {
        if 0 <= j < before.len() {
            assert(before[j].0@ == after[j].0@);
        }
    }
    assert forall|k: Seq<char>| #[trigger] has_id(after, k) == has_id(before, k) by {
        if has_id(after, k) {
            assert(id_at(after, k, position_of(after, k)));
            assert(id_at(before, k, position_of(after, k)));
        }
        if has_id(before, k) {
            assert(id_at(before, k, position_of(before, k)));
            assert(id_at(after, k, position_of(before, k)));
        }
    }
    assert forall|k: Seq<char>| has_id(before, k) implies #[trigger] position_of(after, k)
        == position_of(before, k) by {
        let p = position_of(before, k);
        let q = position_of(after, k);
        assert(id_at(before, k, p));
        assert(id_at(after, k, p));
        assert(id_at(after, k, q));
        assert(id_at(before, k, q));
        if p != q {
            assert(before[p].0@ != before[q].0@);
        }
    }
}

/// The part of the configuration that is about MCP.
#[derive(Debug)]
pub struct McpConfig {
    /// The registry, where there is one.
    pub servers: Option<ServerMap>,
}

/// The configuration of all applications.
#[derive(Debug)]
pub struct MultiAppConfig {
    pub mcp: McpConfig,
}

impl Default for MultiAppConfig {
    fn default() -> (r: Self)
        ensures
            r.mcp.servers is None,
    {
        MultiAppConfig { mcp: McpConfig { servers: None } }
    }
}

impl MultiAppConfig {
    /// In the registry each id occurs once.
    pub open spec fn wf(self) -> bool {
        self.mcp.servers matches Some(m) ==> m.wf()
    }

    /// The registry, where there is one.
    pub open spec fn registry(self) -> Option<Map<Seq<char>, ServerView>> {
        match self.mcp.servers {
            Some(m) => Some(m@),
            None => None,
        }
    }
}

// ----------------------------------------------------------------------------
// indexmap
// ----------------------------------------------------------------------------

/// `indexmap::IndexMap`.
#[verifier::external_type_specification]
#[verifier::external_body]
#[verifier::reject_recursive_types(K)]
#[verifier::reject_recursive_types(V)]
#[verifier::reject_recursive_types(S)]
pub struct ExIndexMap<K, V, S>(indexmap::IndexMap<K, V, S>);

/// The servers that an `indexmap::IndexMap` holds, in order.
pub uninterp spec fn indexed_servers(servers: indexmap::IndexMap<String, McpServer>) -> Seq<ServerView>;

/// The contents of servers.
pub open spec fn server_views(servers: Seq<&McpServer>) -> Seq<ServerView> {
    Seq::new(servers.len(), |i: int| servers[i]@)
}

/// `indexmap::IndexMap::values`: the servers, in order.
#[verifier::external_body]
pub(crate) fn values_of(servers: &indexmap::IndexMap<String, McpServer>) -> (r: Vec<&McpServer>)
    ensures
        server_views(r@) == indexed_servers(*servers),
{
    servers.values().collect()
}

} // verus!
