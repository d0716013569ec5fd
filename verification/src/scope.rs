//! Build-time configuration: route declarations, nested scopes and the
//! context that folds them into the frozen serving structure.
//!
//! A builder records a flat list of instructions; mounting a child scope
//! brackets the child's instructions between an enter and a leave mark, so
//! applying a configuration is a single pass with a stack of open scopes.

use vstd::prelude::*;
use crate::app::{AppData, Endpoint, Resource, find_method};
use crate::handler::dedup_methods;
use crate::method::Method;
use crate::recognizer::{key_seq, Recognizer};
use crate::tree::Arena;
use crate::uri::{
    compile, pattern_proper, PatternError, Segment, SegSpec, spec_compile, spec_validate,
    Uri, UriSpec,
};
use crate::recognizer::ConflictError;

verus! {

/// A failure to build an application.
#[derive(Clone, Copy, Debug, PartialEq, Eq, Structural)]
pub enum Error {
    /// A route or prefix pattern does not compile.
    Pattern(PatternError),
    /// The same URI is registered under two different scopes.
    Conflict(ConflictError),
    /// A method is registered twice at one URI within one scope.
    MethodConflict,
    /// The endpoint counter cannot grow any further on this machine.
    TooManyEndpoints,
    /// The asterisk target was declared with any method set other than an
    /// explicit `OPTIONS` alone.
    AsteriskOptionsConflict,
}

/// One route declaration: a pattern, the methods it answers and the token
/// of its handler.
#[derive(Debug)]
pub struct RouteDecl {
    pub uri: String,
    pub methods: Vec<Method>,
    pub handler: usize,
}

/// A fresh route declaration for `/`; without an explicit method it
/// answers `GET`.
pub fn route() -> (r: RouteDecl)
    ensures
        r.uri@ == "/"@,
        r.methods@ == Seq::<Method>::empty(),
        r.handler == 0,
{
    RouteDecl { uri: String::from_str("/"), methods: Vec::new(), handler: 0 }
}

impl RouteDecl {
    /// Replaces the pattern.
    pub fn uri(self, s: &str) -> (r: RouteDecl)
        ensures
            r.uri@ == s@,
            r.methods == self.methods,
            r.handler == self.handler,
    {
        RouteDecl { uri: String::from_str(s), ..self }
    }

    /// Adds one method.
    pub fn method(self, m: Method) -> (r: RouteDecl)
        ensures
            r.uri == self.uri,
            r.methods@ == self.methods@.push(m),
            r.handler == self.handler,
    {
        let mut methods = self.methods;
        methods.push(m);
        RouteDecl { methods, ..self }
    }

    /// Replaces the method list.
    pub fn methods(self, ms: Vec<Method>) -> (r: RouteDecl)
        ensures
            r.uri == self.uri,
            r.methods == ms,
            r.handler == self.handler,
    {
        RouteDecl { methods: ms, ..self }
    }

    /// Sets the handler token.
    pub fn to(self, handler: usize) -> (r: RouteDecl)
        ensures
            r.uri == self.uri,
            r.methods == self.methods,
            r.handler == handler,
    {
        RouteDecl { handler, ..self }
    }
}

/// One configuration instruction.
#[derive(Debug)]
pub enum ScopeItem {
    /// Register a route in the currently open scope.
    Route(RouteDecl),
    /// Open a child scope, with its own prefix pattern if any.
    Enter(Option<String>),
    /// Close the innermost open scope.
    Leave,
    /// Set a typed value on the open scope.
    State(u64, String),
    /// Register a modifier token on the open scope.
    Modifier(usize),
    /// Set the fallback token of the open scope.
    Fallback(usize),
    /// Re-set the prefix of the open scope.
    SetPrefix(String),
}

/// A recorded configuration: instructions, an optional prefix of its own,
/// and whether `HEAD` may fall back to `GET`.
#[derive(Debug)]
pub struct Builder {
    pub items: Vec<ScopeItem>,
    pub prefix_pattern: Option<String>,
    pub fallback_head: bool,
}

/// A fresh, empty configuration.
pub fn scope() -> (r: Builder)
    ensures
        r.items@ == Seq::<ScopeItem>::empty(),
        r.prefix_pattern is None,
        r.fallback_head,
{
    Builder { items: Vec::new(), prefix_pattern: None, fallback_head: true }
}

impl Builder {
    /// Adds a route to this scope.
    pub fn route(self, decl: RouteDecl) -> (r: Builder)
        ensures
            r.items@ == self.items@.push(ScopeItem::Route(decl)),
            r.prefix_pattern == self.prefix_pattern,
            r.fallback_head == self.fallback_head,
    {
        let mut items = self.items;
        items.push(ScopeItem::Route(decl));
        Builder { items, ..self }
    }

    /// Merges a route into this scope; the route is applied in place,
    /// without a new scope.
    pub fn with(self, decl: RouteDecl) -> (r: Builder)
        ensures
            r.items@ == self.items@.push(ScopeItem::Route(decl)),
            r.prefix_pattern == self.prefix_pattern,
            r.fallback_head == self.fallback_head,
    {
        self.route(decl)
    }

    /// Mounts a child scope: its instructions run between an enter and a
    /// leave mark.
    pub fn mount(self, child: Builder) -> (r: Builder)
        ensures
            r.items@ == self.items@.push(ScopeItem::Enter(child.prefix_pattern))
                + child.items@ + seq![ScopeItem::Leave],
            r.prefix_pattern == self.prefix_pattern,
            r.fallback_head == self.fallback_head,
    {
        let mut items = self.items;
        let Builder { items: child_items, prefix_pattern, .. } = child;
        items.push(ScopeItem::Enter(prefix_pattern));
        let ghost mid = items@;
        let mut rest = child_items;
        let total = rest.len();
        let mut k: usize = 0;
        let ghost child_model = rest@;
        while k < total
            invariant
                k <= total,
                total == child_model.len(),
                rest@ == child_model.skip(k as int),
                items@ == mid + child_model.take(k as int),
            decreases total - k,
        {
            proof {
                assert(rest@.len() == child_model.len() - k);
            }
            let item = rest.remove(0);
            proof {
                assert(child_model.skip(k as int)[0] == child_model[k as int]);
                assert(child_model.skip(k as int).skip(1) =~= child_model.skip(k as int + 1));
                assert((mid + child_model.take(k as int)).push(item)
                    =~= mid + child_model.take(k as int + 1));
            }
            items.push(item);
            k = k + 1;
        }
        proof {
            assert(child_model.take(child_model.len() as int) =~= child_model);
        }
        items.push(ScopeItem::Leave);
        proof {
            assert(items@ =~= self.items@.push(ScopeItem::Enter(child.prefix_pattern))
                + child.items@ + seq![ScopeItem::Leave]);
        }
        Builder { items, ..self }
    }

    /// Sets a typed value on this scope.
    pub fn state(self, tag: u64, value: String) -> (r: Builder)
        ensures
            r.items@ == self.items@.push(ScopeItem::State(tag, value)),
            r.prefix_pattern == self.prefix_pattern,
            r.fallback_head == self.fallback_head,
    {
        let mut items = self.items;
        items.push(ScopeItem::State(tag, value));
        Builder { items, ..self }
    }

    /// Registers a modifier token on this scope.
    pub fn modifier(self, token: usize) -> (r: Builder)
        ensures
            r.items@ == self.items@.push(ScopeItem::Modifier(token)),
            r.prefix_pattern == self.prefix_pattern,
            r.fallback_head == self.fallback_head,
    {
        let mut items = self.items;
        items.push(ScopeItem::Modifier(token));
        Builder { items, ..self }
    }

    /// Sets the fallback token of this scope.
    pub fn fallback(self, token: usize) -> (r: Builder)
        ensures
            r.items@ == self.items@.push(ScopeItem::Fallback(token)),
            r.prefix_pattern == self.prefix_pattern,
            r.fallback_head == self.fallback_head,
    {
        let mut items = self.items;
        items.push(ScopeItem::Fallback(token));
        Builder { items, ..self }
    }

    /// Sets the prefix pattern of this scope.
    pub fn prefix(self, s: &str) -> (r: Builder)
        ensures
            r.items == self.items,
            r.prefix_pattern matches Some(p) && p@ == s@,
            r.fallback_head == self.fallback_head,
    {
        Builder { prefix_pattern: Some(String::from_str(s)), ..self }
    }

    /// Enables or disables serving `HEAD` through the `GET` endpoint.
    pub fn fallback_head(self, enabled: bool) -> (r: Builder)
        ensures
            r.items == self.items,
            r.prefix_pattern == self.prefix_pattern,
            r.fallback_head == enabled,
    {
        Builder { fallback_head: enabled, ..self }
    }
}

/// The method list with the default applied: a route without methods
/// answers `GET`.
pub open spec fn defaulted(ms: Seq<Method>) -> Seq<Method> {
    if ms.len() == 0 {
        seq![Method::Get]
    } else {
        ms
    }
}

/// How many route registrations the instruction list holds.
pub open spec fn n_routes(items: Seq<ScopeItem>) -> int
    decreases items.len(),
{
    if items.len() == 0 {
        0
    } else {
        n_routes(items.drop_last()) + (if items.last() is Route {
            1int
        } else {
            0int
        })
    }
}

/// How many child scopes the instruction list opens.
pub open spec fn n_enters(items: Seq<ScopeItem>) -> int
    decreases items.len(),
{
    if items.len() == 0 {
        0
    } else {
        n_enters(items.drop_last()) + (if items.last() is Enter {
            1int
        } else {
            0int
        })
    }
}

/// Both counts are bounded by the list's length.
proof fn lemma_counts_bounded(items: Seq<ScopeItem>)
    ensures
        0 <= n_routes(items) <= items.len(),
        0 <= n_enters(items) <= items.len(),
    decreases items.len(),
{
    if items.len() > 0 {
        lemma_counts_bounded(items.drop_last());
    }
}

/// The registered resource of that structural key at or after `j`.
pub open spec fn key_index_from(app: AppData, full: Seq<SegSpec>, j: int) -> Option<int>
    decreases app.n_res() - j,
{
    if j < 0 || j >= app.n_res() {
        None
    } else if key_seq(app.pat(j)) == key_seq(full) {
        Some(j)
    } else {
        key_index_from(app, full, j + 1)
    }
}

/// The registered resource of that structural key, if any.
pub open spec fn key_index(app: AppData, full: Seq<SegSpec>) -> Option<int> {
    key_index_from(app, full, 0)
}

/// An earliest key match is the key's index.
proof fn lemma_key_index_found(app: AppData, full: Seq<SegSpec>, i: int, j: int)
    requires
        0 <= i <= j < app.n_res(),
        key_seq(app.pat(j)) == key_seq(full),
        forall|t: int| i <= t < j ==> key_seq(#[trigger] app.pat(t)) != key_seq(full),
    ensures
        key_index_from(app, full, i) == Some(j),
    decreases j - i,
{
    if i < j {
        lemma_key_index_found(app, full, i + 1, j);
    }
}

/// A key no resource carries has no index.
proof fn lemma_key_index_absent(app: AppData, full: Seq<SegSpec>, i: int)
    requires
        0 <= i,
        forall|t: int| i <= t < app.n_res()
            ==> key_seq(#[trigger] app.pat(t)) != key_seq(full),
    ensures
        key_index_from(app, full, i) is None,
    decreases app.n_res() - i,
{
    if i < app.n_res() {
        lemma_key_index_absent(app, full, i + 1);
    }
}

/// The deduplicated list keeps its elements pairwise distinct.
pub proof fn lemma_dedup_distinct(ms: Seq<Method>)
    ensures
        forall|a: int, b: int| 0 <= a < b < dedup_methods(ms).len()
            ==> dedup_methods(ms)[a] != dedup_methods(ms)[b],
    decreases ms.len(),
{
    if ms.len() > 0 {
        lemma_dedup_distinct(ms.drop_last());
        let d = dedup_methods(ms.drop_last());
        if !d.contains(ms.last()) {
            assert forall|a: int, b: int| 0 <= a < b < dedup_methods(ms).len()
                implies dedup_methods(ms)[a] != dedup_methods(ms)[b] by {
                if b == d.len() {
                    assert(dedup_methods(ms)[a] == d[a]);
                    if d[a] == ms.last() {
                        assert(d.contains(ms.last()));
                    }
                }
            }
        }
    }
}

/// Looking a method up in entries all mapping to one endpoint finds that
/// endpoint exactly when the method is among them.
pub proof fn lemma_find_method_mapped(ms: Seq<Method>, ei: usize, m: Method)
    ensures
        find_method(ms.map_values(|x: Method| (x, ei)), m)
            == if ms.contains(m) {
                Some(ei)
            } else {
                None::<usize>
            },
    decreases ms.len(),
{
    let entries = ms.map_values(|x: Method| (x, ei));
    if ms.len() > 0 {
        lemma_find_method_mapped(ms.drop_first(), ei, m);
        assert(entries.drop_first() =~= ms.drop_first().map_values(|x: Method| (x, ei)));
        if ms[0] != m {
            assert(ms.contains(m) == ms.drop_first().contains(m)) by {
                if ms.contains(m) {
                    let t = choose|t: int| 0 <= t < ms.len() && ms[t] == m;
                    assert(ms.drop_first()[t - 1] == m);
                }
                if ms.drop_first().contains(m) {
                    let t = choose|t: int| 0 <= t < ms.drop_first().len()
                        && ms.drop_first()[t] == m;
                    assert(ms[t + 1] == m);
                }
            }
        }
    }
}

/// Looking a method up skips a front run that does not hold it.
pub proof fn lemma_find_method_append(a: Seq<(Method, usize)>, b: Seq<(Method, usize)>, m: Method)
    requires
        forall|t: int| 0 <= t < a.len() ==> (#[trigger] a[t]).0 != m,
    ensures
        find_method(a + b, m) == find_method(b, m),
    decreases a.len(),
{
    if a.len() == 0 {
        assert(a + b =~= b);
    } else {
        assert((a + b).drop_first() =~= a.drop_first() + b);
        assert forall|t: int| 0 <= t < a.drop_first().len()
            implies (#[trigger] a.drop_first()[t]).0 != m by {
            assert(a[t + 1].0 != m);
        }
        lemma_find_method_append(a.drop_first(), b, m);
    }
}

/// Copies a method list.
pub fn copy_methods(v: &Vec<Method>) -> (r: Vec<Method>)
    ensures
        r@ == v@,
{
    let mut r: Vec<Method> = Vec::new();
    let mut k: usize = 0;
    while k < v.len()
        invariant
            k <= v@.len(),
            r@ =~= v@.take(k as int),
        decreases v@.len() - k,
    {
        r.push(v[k]);
        proof {
            assert(r@ =~= v@.take(k as int + 1));
        }
        k = k + 1;
    }
    proof {
        assert(r@ =~= v@);
    }
    r
}

/// The configuration state while a builder is applied: the growing
/// application, the scope being configured, and the endpoint counter.
#[derive(Debug)]
pub struct Context {
    pub app: AppData,
    pub current: usize,
    pub n_endpoints: usize,
}

impl Context {
    /// The application is well formed, the open scope valid, and every
    /// scope prefix a proper pattern.
    pub open spec fn wf(self) -> bool {
        &&& self.app.wf()
        &&& 0 <= (self.current as int) < self.app.scopes.len_spec()
        &&& forall|i: int| 0 <= i < self.app.scopes.len_spec()
            ==> pattern_proper(
                (#[trigger] self.app.scopes.node(i)).prefix@.map_values(|g: Segment| g@),
            )
    }

    /// A fresh context whose root scope carries the given prefix.
    pub fn new(root_prefix: Vec<Segment>) -> (r: Context)
        requires
            pattern_proper(root_prefix@.map_values(|g: Segment| g@)),
        ensures
            r.wf(),
            r.current == 0,
            r.n_endpoints == 0,
            r.app.n_res() == 0,
            r.app.asterisk is None,
            r.app.scopes.len_spec() == 1,
            r.app.fallback_head,
    {
        let app = AppData {
            recognizer: Recognizer::new(),
            scopes: Arena::new(root_prefix),
            resources: Vec::new(),
            asterisk: None,
            fallback_head: true,
        };
        Context { app, current: 0, n_endpoints: 0 }
    }

    /// Sets a typed value on the open scope.
    pub fn set_state(&mut self, tag: u64, value: String)
        requires
            old(self).wf(),
        ensures
            final(self).wf(),
            final(self).current == old(self).current,
            final(self).n_endpoints == old(self).n_endpoints,
            final(self).app.scopes.states_at(old(self).current as int)
                == old(self).app.scopes.states_at(old(self).current as int).push(
                    (tag, value@),
                ),
            final(self).app.scopes.len_spec() == old(self).app.scopes.len_spec(),
            final(self).app.fallback_head == old(self).app.fallback_head,
            final(self).app.resources == old(self).app.resources,
            final(self).app.recognizer == old(self).app.recognizer,
            final(self).app.asterisk == old(self).app.asterisk,
            forall|i: int| 0 <= i < old(self).app.scopes.len_spec()
                && i != old(self).current as int
                ==> #[trigger] final(self).app.scopes.node(i)
                    == old(self).app.scopes.node(i),
            ({
                let c = old(self).current as int;
                let n = final(self).app.scopes.node(c);
                let o = old(self).app.scopes.node(c);
                n.parent == o.parent && n.ancestors == o.ancestors
                    && n.prefix == o.prefix && n.prefix_text == o.prefix_text
                    && n.fallback == o.fallback && n.modifiers == o.modifiers
            }),
    {
        let c = self.current;
        let ghost before = self.app.scopes.states_at(c as int);
        self.app.scopes.nodes[c].states.push((tag, value));
        proof {
            assert(self.app.scopes.states_at(c as int) =~= before.push((tag, value@)));
            lemma_ctx_wf_node_touch(*old(self), *self, c as int);
        }
    }

    /// Registers a modifier token on the open scope.
    pub fn add_modifier(&mut self, token: usize)
        requires
            old(self).wf(),
        ensures
            final(self).wf(),
            final(self).current == old(self).current,
            final(self).n_endpoints == old(self).n_endpoints,
            final(self).app.scopes.node(old(self).current as int).modifiers@
                == old(self).app.scopes.node(old(self).current as int).modifiers@.push(token),
            final(self).app.scopes.len_spec() == old(self).app.scopes.len_spec(),
            final(self).app.fallback_head == old(self).app.fallback_head,
            final(self).app.resources == old(self).app.resources,
            final(self).app.recognizer == old(self).app.recognizer,
            final(self).app.asterisk == old(self).app.asterisk,
            forall|i: int| 0 <= i < old(self).app.scopes.len_spec()
                && i != old(self).current as int
                ==> #[trigger] final(self).app.scopes.node(i)
                    == old(self).app.scopes.node(i),
            ({
                let c = old(self).current as int;
                let n = final(self).app.scopes.node(c);
                let o = old(self).app.scopes.node(c);
                n.parent == o.parent && n.ancestors == o.ancestors
                    && n.prefix == o.prefix && n.prefix_text == o.prefix_text
                    && n.fallback == o.fallback && n.states == o.states
            }),
    {
        let c = self.current;
        self.app.scopes.nodes[c].modifiers.push(token);
        proof {
            lemma_ctx_wf_node_touch(*old(self), *self, c as int);
        }
    }

    /// Sets the fallback token of the open scope.
    pub fn set_fallback(&mut self, token: usize)
        requires
            old(self).wf(),
        ensures
            final(self).wf(),
            final(self).current == old(self).current,
            final(self).n_endpoints == old(self).n_endpoints,
            final(self).app.scopes.node(old(self).current as int).fallback == Some(token),
            final(self).app.scopes.len_spec() == old(self).app.scopes.len_spec(),
            final(self).app.fallback_head == old(self).app.fallback_head,
            final(self).app.resources == old(self).app.resources,
            final(self).app.recognizer == old(self).app.recognizer,
            final(self).app.asterisk == old(self).app.asterisk,
            forall|i: int| 0 <= i < old(self).app.scopes.len_spec()
                && i != old(self).current as int
                ==> #[trigger] final(self).app.scopes.node(i)
                    == old(self).app.scopes.node(i),
            ({
                let c = old(self).current as int;
                let n = final(self).app.scopes.node(c);
                let o = old(self).app.scopes.node(c);
                n.parent == o.parent && n.ancestors == o.ancestors
                    && n.prefix == o.prefix && n.prefix_text == o.prefix_text
                    && n.states == o.states && n.modifiers == o.modifiers
            }),
    {
        let c = self.current;
        self.app.scopes.nodes[c].fallback = Some(token);
        proof {
            lemma_ctx_wf_node_touch(*old(self), *self, c as int);
        }
    }
}

/// An absent method has no entry.
pub proof fn lemma_find_method_none(ms: Seq<(Method, usize)>, m: Method)
    requires
        find_method(ms, m) is None,
    ensures
        forall|t: int| 0 <= t < ms.len() ==> (#[trigger] ms[t]).0 != m,
    decreases ms.len(),
{
    if ms.len() > 0 {
        lemma_find_method_none(ms.drop_first(), m);
        assert forall|t: int| 0 <= t < ms.len() implies (#[trigger] ms[t]).0 != m by {
            if t > 0 {
                assert(ms.drop_first()[t - 1].0 != m);
            }
        }
    }
}

impl Context {
    /// The full prefix of the open scope.
    pub open spec fn cur_prefix(self) -> Seq<SegSpec> {
        self.app.scopes.node(self.current as int).prefix@.map_values(|g: Segment| g@)
    }

    /// What registering a route with this pattern and method list yields.
    ///
    /// The pattern must compile; the asterisk target tolerates no prefix,
    /// no second registration and no method set but an explicit `OPTIONS`
    /// alone; a path pattern joined to the scope prefix must stay valid,
    /// must not collide with the same pattern in another scope, and must
    /// not re-register a method already mapped at its resource.
    pub open spec fn route_outcome(self, uri: Seq<char>, methods: Seq<Method>)
        -> Result<(), Error> {
        match spec_compile(uri) {
            Err(e) => Err(Error::Pattern(e)),
            Ok(UriSpec::Asterisk) => {
                if self.cur_prefix().len() > 0 {
                    Err(Error::Pattern(PatternError::AsteriskWithPrefix))
                } else if self.app.asterisk is Some {
                    Err(Error::Conflict(ConflictError::DuplicateUri))
                } else if dedup_methods(defaulted(methods)) != seq![Method::Options] {
                    Err(Error::AsteriskOptionsConflict)
                } else {
                    Ok(())
                }
            },
            Ok(UriSpec::Segments(segs)) => {
                let full = self.cur_prefix() + segs;
                match spec_validate(full) {
                    Err(e) => Err(Error::Pattern(e)),
                    Ok(_) => {
                        if exists|j: int| 0 <= j < self.app.n_res()
                            && key_seq(#[trigger] self.app.pat(j)) == key_seq(full)
                            && self.app.res(j).scope != self.current {
                            Err(Error::Conflict(ConflictError::DuplicateUri))
                        } else if exists|j: int| 0 <= j < self.app.n_res()
                            && key_seq(#[trigger] self.app.pat(j)) == key_seq(full)
                            && self.app.res(j).scope == self.current
                            && exists|m: Method| dedup_methods(defaulted(methods)).contains(m)
                                && find_method(self.app.res(j).allowed_methods@, m) is Some {
                            Err(Error::MethodConflict)
                        } else {
                            Ok(())
                        }
                    },
                }
            },
        }
    }

    /// The resource registered for this pattern, capture names ignored.
    fn find_resource(&self, segs: &Vec<Segment>) -> (r: Option<usize>)
        requires
            self.wf(),
        ensures
            match r {
                Some(j) => 0 <= j < self.app.n_res()
                    && key_seq(self.app.pat(j as int))
                        == key_seq(segs@.map_values(|g: Segment| g@))
                    && key_index(self.app, segs@.map_values(|g: Segment| g@))
                        == Some(j as int),
                None => (forall|j: int| 0 <= j < self.app.n_res()
                    ==> key_seq(#[trigger] self.app.pat(j))
                        != key_seq(segs@.map_values(|g: Segment| g@)))
                    && key_index(self.app, segs@.map_values(|g: Segment| g@)) is None,
            },
    {
        let mut j: usize = 0;
        while j < self.app.resources.len()
            invariant
                self.wf(),
                j <= self.app.n_res(),
                forall|t: int| 0 <= t < j
                    ==> key_seq(#[trigger] self.app.pat(t))
                        != key_seq(segs@.map_values(|g: Segment| g@)),
            decreases self.app.n_res() - j,
        {
            let cand = match &self.app.resources[j].uri {
                Uri::Segments(v) => v,
                Uri::Asterisk => {
                    proof {
                        assert(self.app.res(j as int).uri@
                            == UriSpec::Segments(self.app.pat(j as int)));
                    }
                    vstd::pervasive::unreached()
                },
            };
            proof {
                assert(cand@.map_values(|g: Segment| g@) == self.app.pat(j as int));
            }
            if crate::recognizer::uri_key_eq(cand, segs) {
                proof {
                    lemma_key_index_found(
                        self.app,
                        segs@.map_values(|g: Segment| g@),
                        0,
                        j as int,
                    );
                }
                return Some(j);
            }
            j = j + 1;
        }
        proof {
            lemma_key_index_absent(self.app, segs@.map_values(|g: Segment| g@), 0);
        }
        None
    }

    /// Registers one route in the open scope.
    #[verifier::rlimit(100)]
    pub fn add_route(&mut self, decl: RouteDecl) -> (r: Result<(), Error>)
        requires
            old(self).wf(),
            old(self).n_endpoints < usize::MAX,
        ensures
            final(self).wf(),
            final(self).current == old(self).current,
            r == old(self).route_outcome(decl.uri@, decl.methods@),
            r is Err ==> *final(self) == *old(self),
            final(self).app.scopes == old(self).app.scopes,
            final(self).app.fallback_head == old(self).app.fallback_head,
            forall|i: int| 0 <= i < old(self).app.n_res()
                ==> #[trigger] final(self).app.pat(i) == old(self).app.pat(i),
            r is Ok ==> {
                &&& final(self).n_endpoints == old(self).n_endpoints + 1
                &&& match spec_compile(decl.uri@) {
                    Ok(UriSpec::Asterisk) => {
                        &&& final(self).app.asterisk matches Some(a)
                        &&& a.endpoints@.len() == 1
                        &&& a.endpoints@[0].id == old(self).n_endpoints
                        &&& a.endpoints@[0].handler == decl.handler
                        &&& find_method(a.allowed_methods@, Method::Options)
                            == Some(0usize)
                        &&& final(self).app.resources == old(self).app.resources
                    },
                    Ok(UriSpec::Segments(sm)) => ({
                        let full = old(self).cur_prefix() + sm;
                        let ms = dedup_methods(defaulted(decl.methods@));
                        &&& final(self).app.asterisk == old(self).app.asterisk
                        &&& match key_index(old(self).app, full) {
                            Some(j) => {
                                let rj = final(self).app.res(j);
                                let oj = old(self).app.res(j);
                                &&& final(self).app.n_res() == old(self).app.n_res()
                                &&& forall|i: int| 0 <= i < old(self).app.n_res() && i != j
                                    ==> #[trigger] final(self).app.res(i)
                                        == old(self).app.res(i)
                                &&& oj.scope == old(self).current
                                &&& rj.id == oj.id
                                &&& rj.uri == oj.uri
                                &&& rj.scope == oj.scope
                                &&& rj.ancestors == oj.ancestors
                                &&& rj.capture_names == oj.capture_names
                                &&& rj.endpoints@.len() == oj.endpoints@.len() + 1
                                &&& forall|t: int| 0 <= t < oj.endpoints@.len()
                                    ==> #[trigger] rj.endpoints@[t] == oj.endpoints@[t]
                                &&& rj.endpoints@.last().id == old(self).n_endpoints
                                &&& rj.endpoints@.last().handler == decl.handler
                                &&& rj.endpoints@.last().methods@ == ms
                                &&& rj.allowed_methods@ == oj.allowed_methods@
                                    + ms.map_values(
                                        |m: Method| (m, oj.endpoints@.len() as usize),
                                    )
                            },
                            None => {
                                let j = old(self).app.n_res();
                                let rj = final(self).app.res(j);
                                &&& final(self).app.n_res() == old(self).app.n_res() + 1
                                &&& forall|i: int| 0 <= i < old(self).app.n_res()
                                    ==> #[trigger] final(self).app.res(i)
                                        == old(self).app.res(i)
                                &&& final(self).app.pat(j) == full
                                &&& rj.scope == old(self).current
                                &&& rj.ancestors@
                                    == old(self).app.scopes.anc(old(self).current as int)
                                &&& rj.capture_names@.map_values(|n: String| n@)
                                    == crate::uri::names_of(full)
                                &&& rj.endpoints@.len() == 1
                                &&& rj.endpoints@[0].id == old(self).n_endpoints
                                &&& rj.endpoints@[0].handler == decl.handler
                                &&& rj.endpoints@[0].methods@ == ms
                                &&& rj.allowed_methods@
                                    == ms.map_values(|m: Method| (m, 0usize))
                            },
                        }
                    }),
                    _ => false,
                }
            },
    {
        let RouteDecl { uri, methods, handler } = decl;
        let compiled = match compile(uri.as_str()) {
            Ok(u) => u,
            Err(e) => {
                return Err(Error::Pattern(e));
            },
        };
        let base = if methods.len() == 0 {
            let mut v: Vec<Method> = Vec::new();
            v.push(Method::Get);
            proof {
                assert(v@ =~= defaulted(decl.methods@));
            }
            v
        } else {
            methods
        };
        let ms = crate::handler::dedup_method_list(&base);
        let ghost msm = ms@;
        proof {
            assert(msm == dedup_methods(defaulted(decl.methods@)));
            lemma_dedup_distinct(defaulted(decl.methods@));
        }

        match compiled {
            Uri::Asterisk => self.register_asterisk(ms, handler),
            Uri::Segments(segs) => {
                proof {
                    crate::uri::lemma_segments_from_proper(uri@, 1);
                    assert(segs@.map_values(|g: Segment| g@)
                        == crate::uri::segments_from(uri@, 1));
                }
                self.register_path(segs, ms, handler)
            },
        }
    }

    /// Registers the asterisk target.
    fn register_asterisk(&mut self, ms: Vec<Method>, handler: usize) -> (r: Result<(), Error>)
        requires
            old(self).wf(),
            old(self).n_endpoints < usize::MAX,
            forall|a: int, b: int| 0 <= a < b < ms@.len() ==> ms@[a] != ms@[b],
        ensures
            final(self).wf(),
            final(self).current == old(self).current,
            final(self).app.scopes == old(self).app.scopes,
            final(self).app.fallback_head == old(self).app.fallback_head,
            forall|i: int| 0 <= i < old(self).app.n_res()
                ==> #[trigger] final(self).app.pat(i) == old(self).app.pat(i),
            r == (if old(self).cur_prefix().len() > 0 {
                Err::<(), Error>(Error::Pattern(PatternError::AsteriskWithPrefix))
            } else if old(self).app.asterisk is Some {
                Err(Error::Conflict(ConflictError::DuplicateUri))
            } else if ms@ != seq![Method::Options] {
                Err(Error::AsteriskOptionsConflict)
            } else {
                Ok(())
            }),
            r is Err ==> *final(self) == *old(self),
            r is Ok ==> {
                &&& final(self).n_endpoints == old(self).n_endpoints + 1
                &&& final(self).app.asterisk matches Some(a)
                &&& a.endpoints@.len() == 1
                &&& a.endpoints@[0].id == old(self).n_endpoints
                &&& a.endpoints@[0].handler == handler
                &&& find_method(a.allowed_methods@, Method::Options) == Some(0usize)
                &&& final(self).app.resources == old(self).app.resources
            },
    {
        let c = self.current;
        if self.app.scopes.nodes[c].prefix.len() > 0 {
            proof {
                assert(old(self).cur_prefix().len() > 0);
            }
            return Err(Error::Pattern(PatternError::AsteriskWithPrefix));
        }
        proof {
            assert(old(self).cur_prefix().len() == 0);
        }
        if self.app.asterisk.is_some() {
            return Err(Error::Conflict(ConflictError::DuplicateUri));
        }
        let ok = ms.len() == 1 && matches!(ms[0], Method::Options);
        if !ok {
            proof {
                if ms@ =~= seq![Method::Options] {
                    assert(ms@.len() == 1 && ms@[0] == Method::Options);
                }
            }
            return Err(Error::AsteriskOptionsConflict);
        }
        proof {
            assert(ms@ =~= seq![Method::Options]);
        }
        let endpoint = Endpoint { id: self.n_endpoints, methods: ms, handler };
        let mut endpoints: Vec<Endpoint> = Vec::new();
        endpoints.push(endpoint);
        let mut allowed: Vec<(Method, usize)> = Vec::new();
        allowed.push((Method::Options, 0));
        let mut keys: Vec<Method> = Vec::new();
        keys.push(Method::Options);
        let value = crate::handler::render_allow_header(&keys);
        let mut ancestors: Vec<usize> = Vec::new();
        ancestors.push(0);
        let resource = Resource {
            id: 0,
            scope: 0,
            ancestors,
            uri: Uri::Asterisk,
            capture_names: Vec::new(),
            endpoints,
            allowed_methods: allowed,
            allowed_methods_value: value,
        };
        proof {
            assert(resource.method_keys() =~= seq![Method::Options]);
            assert(keys@ =~= seq![Method::Options]);
            assert(resource.wf());
        }
        self.app.asterisk = Some(resource);
        self.n_endpoints = self.n_endpoints + 1;
        proof {
            assert(self.app.wf()) by {
                assert forall|i: int| 0 <= i < self.app.n_res() implies {
                    &&& (#[trigger] self.app.res(i)).id == i
                    &&& self.app.res(i).scope < self.app.scopes.len_spec()
                    &&& self.app.res(i).ancestors@
                        == self.app.scopes.anc(self.app.res(i).scope as int)
                    &&& self.app.res(i).uri@
                        == UriSpec::Segments(self.app.recognizer.pat_at(i))
                    &&& self.app.res(i).wf()
                } by {
                    assert(self.app.res(i) == old(self).app.res(i));
                    assert(old(self).app.res(i).id == i);
                }
                assert forall|i: int| 0 <= i < self.app.n_res()
                    implies pattern_proper(#[trigger] self.app.pat(i)) by {
                    assert(pattern_proper(old(self).app.pat(i)));
                }
            }
        }
        Ok(())
    }
}

impl Context {
    /// Registers a path route: joins the scope prefix, validates, and
    /// merges into an existing resource of this scope or creates one.
    #[verifier::rlimit(100)]
    fn register_path(&mut self, segs: Vec<Segment>, ms: Vec<Method>, handler: usize)
        -> (r: Result<(), Error>)
        requires
            old(self).wf(),
            old(self).n_endpoints < usize::MAX,
            forall|a: int, b: int| 0 <= a < b < ms@.len() ==> ms@[a] != ms@[b],
            pattern_proper(segs@.map_values(|g: Segment| g@)),
        ensures
            final(self).wf(),
            final(self).current == old(self).current,
            final(self).app.scopes == old(self).app.scopes,
            final(self).app.fallback_head == old(self).app.fallback_head,
            final(self).app.asterisk == old(self).app.asterisk,
            forall|i: int| 0 <= i < old(self).app.n_res()
                ==> #[trigger] final(self).app.pat(i) == old(self).app.pat(i),
            r == ({
                let full = old(self).cur_prefix() + segs@.map_values(|g: Segment| g@);
                match spec_validate(full) {
                    Err(e) => Err::<(), Error>(Error::Pattern(e)),
                    Ok(_) => {
                        if exists|j: int| 0 <= j < old(self).app.n_res()
                            && key_seq(#[trigger] old(self).app.pat(j)) == key_seq(full)
                            && old(self).app.res(j).scope != old(self).current {
                            Err(Error::Conflict(ConflictError::DuplicateUri))
                        } else if exists|j: int| 0 <= j < old(self).app.n_res()
                            && key_seq(#[trigger] old(self).app.pat(j)) == key_seq(full)
                            && old(self).app.res(j).scope == old(self).current
                            && exists|m: Method| ms@.contains(m)
                                && find_method(
                                    old(self).app.res(j).allowed_methods@, m,
                                ) is Some {
                            Err(Error::MethodConflict)
                        } else {
                            Ok(())
                        }
                    },
                }
            }),
            r is Err ==> *final(self) == *old(self),
            r is Ok ==> ({
                let full = old(self).cur_prefix() + segs@.map_values(|g: Segment| g@);
                &&& final(self).n_endpoints == old(self).n_endpoints + 1
                &&& match key_index(old(self).app, full) {
                    Some(j) => {
                        let rj = final(self).app.res(j);
                        let oj = old(self).app.res(j);
                        &&& final(self).app.n_res() == old(self).app.n_res()
                        &&& forall|i: int| 0 <= i < old(self).app.n_res() && i != j
                            ==> #[trigger] final(self).app.res(i) == old(self).app.res(i)
                        &&& oj.scope == old(self).current
                        &&& rj.id == oj.id
                        &&& rj.uri == oj.uri
                        &&& rj.scope == oj.scope
                        &&& rj.ancestors == oj.ancestors
                        &&& rj.capture_names == oj.capture_names
                        &&& rj.endpoints@.len() == oj.endpoints@.len() + 1
                        &&& forall|t: int| 0 <= t < oj.endpoints@.len()
                            ==> #[trigger] rj.endpoints@[t] == oj.endpoints@[t]
                        &&& rj.endpoints@.last().id == old(self).n_endpoints
                        &&& rj.endpoints@.last().handler == handler
                        &&& rj.endpoints@.last().methods@ == ms@
                        &&& rj.allowed_methods@ == oj.allowed_methods@
                            + ms@.map_values(
                                |m: Method| (m, oj.endpoints@.len() as usize),
                            )
                    },
                    None => {
                        let j = old(self).app.n_res();
                        let rj = final(self).app.res(j);
                        &&& final(self).app.n_res() == old(self).app.n_res() + 1
                        &&& forall|i: int| 0 <= i < old(self).app.n_res()
                            ==> #[trigger] final(self).app.res(i) == old(self).app.res(i)
                        &&& final(self).app.pat(j) == full
                        &&& rj.scope == old(self).current
                        &&& rj.ancestors@
                            == old(self).app.scopes.anc(old(self).current as int)
                        &&& rj.capture_names@.map_values(|n: String| n@)
                            == crate::uri::names_of(full)
                        &&& rj.endpoints@.len() == 1
                        &&& rj.endpoints@[0].id == old(self).n_endpoints
                        &&& rj.endpoints@[0].handler == handler
                        &&& rj.endpoints@[0].methods@ == ms@
                        &&& rj.allowed_methods@ == ms@.map_values(|m: Method| (m, 0usize))
                    },
                }
            }),
    {
        let c = self.current;
        let ghost segs_model = segs@.map_values(|g: Segment| g@);
        let ghost fullm = old(self).cur_prefix() + segs@.map_values(|g: Segment| g@);
        let full = crate::uri::concat_segments(&self.app.scopes.nodes[c].prefix, segs);
        proof {
            assert(full@.map_values(|g: Segment| g@) == fullm);
            assert(pattern_proper(fullm)) by {
                assert forall|k: int| 0 <= k < fullm.len()
                    implies crate::uri::seg_proper(#[trigger] fullm[k]) by {
                    if k < old(self).cur_prefix().len() {
                        assert(fullm[k] == old(self).cur_prefix()[k]);
                    } else {
                        assert(fullm[k]
                            == segs@.map_values(|g: Segment| g@)[
                                k - old(self).cur_prefix().len()]);
                    }
                }
            }
        }
        if !crate::uri::check_catch_all(&full) {
            return Err(Error::Pattern(PatternError::InvalidCatchAllPosition));
        }
        let names = crate::uri::capture_names(&full);
        if crate::uri::names_have_duplicate(&names) {
            return Err(Error::Pattern(PatternError::DuplicateCaptureName));
        }

        match self.find_resource(&full) {
            Some(j) => {
                if self.app.resources[j].scope != c {
                    proof {
                        assert(key_seq(old(self).app.pat(j as int)) == key_seq(fullm));
                        assert(old(self).app.res(j as int).scope != old(self).current);
                        assert(exists|j2: int| 0 <= j2 < old(self).app.n_res()
                            && key_seq(#[trigger] old(self).app.pat(j2)) == key_seq(fullm)
                            && old(self).app.res(j2).scope != old(self).current);
                    }
                    return Err(Error::Conflict(ConflictError::DuplicateUri));
                }
                proof {
                    assert(key_seq(old(self).app.pat(j as int)) == key_seq(fullm));
                    assert(old(self).app.res(j as int).scope == old(self).current);
                    assert forall|j2: int| 0 <= j2 < old(self).app.n_res()
                        && key_seq(#[trigger] old(self).app.pat(j2)) == key_seq(fullm)
                        implies j2 == j as int by {
                        if j2 != j as int {
                            if j2 < j as int {
                                assert(key_seq(old(self).app.pat(j2))
                                    != key_seq(old(self).app.pat(j as int)));
                            } else {
                                assert(key_seq(old(self).app.pat(j as int))
                                    != key_seq(old(self).app.pat(j2)));
                            }
                        }
                    }
                }
                // Every method must be new to the resource.
                let mut k: usize = 0;
                while k < ms.len()
                    invariant
                        *self == *old(self),
                        self.wf(),
                        0 <= (j as int) < old(self).app.n_res(),
                        k <= ms@.len(),
                        key_seq(old(self).app.pat(j as int)) == key_seq(fullm),
                        old(self).app.res(j as int).scope == old(self).current,
                        spec_validate(fullm) == Ok::<UriSpec, PatternError>(
                            UriSpec::Segments(fullm),
                        ),
                        fullm == old(self).cur_prefix()
                            + segs@.map_values(|g: Segment| g@),
                        forall|j2: int| 0 <= j2 < old(self).app.n_res()
                            && key_seq(#[trigger] old(self).app.pat(j2)) == key_seq(fullm)
                            ==> j2 == j as int,
                        forall|t: int| 0 <= t < k
                            ==> find_method(
                                old(self).app.res(j as int).allowed_methods@,
                                #[trigger] ms@[t],
                            ) is None,
                    decreases ms@.len() - k,
                {
                    match self.app.resources[j].recognize(&ms[k]) {
                        Some(_) => {
                            proof {
                                let m = ms@[k as int];
                                assert(ms@.contains(m));
                                assert(find_method(
                                    old(self).app.res(j as int).allowed_methods@,
                                    m,
                                ) is Some);
                                if exists|j2: int| 0 <= j2 < old(self).app.n_res()
                                    && key_seq(#[trigger] old(self).app.pat(j2))
                                        == key_seq(fullm)
                                    && old(self).app.res(j2).scope != old(self).current {
                                    let j2 = choose|j2: int| 0 <= j2 < old(self).app.n_res()
                                        && key_seq(#[trigger] old(self).app.pat(j2))
                                            == key_seq(fullm)
                                        && old(self).app.res(j2).scope
                                            != old(self).current;
                                    assert(j2 == j as int);
                                }
                                assert(exists|m2: Method| ms@.contains(m2)
                                    && find_method(
                                        old(self).app.res(j as int).allowed_methods@,
                                        m2,
                                    ) is Some);
                                assert(exists|j2: int| 0 <= j2 < old(self).app.n_res()
                                    && key_seq(#[trigger] old(self).app.pat(j2))
                                        == key_seq(fullm)
                                    && old(self).app.res(j2).scope == old(self).current
                                    && exists|m2: Method| ms@.contains(m2)
                                        && find_method(
                                            old(self).app.res(j2).allowed_methods@,
                                            m2,
                                        ) is Some);
                            }
                            return Err(Error::MethodConflict);
                        },
                        None => {},
                    }
                    k = k + 1;
                }
                proof {
                    assert forall|m: Method| ms@.contains(m)
                        implies find_method(
                            old(self).app.res(j as int).allowed_methods@, m,
                        ) is None by {
                        let t = choose|t: int| 0 <= t < ms@.len() && ms@[t] == m;
                        assert(find_method(
                            old(self).app.res(j as int).allowed_methods@, ms@[t],
                        ) is None);
                    }
                }
                proof {
                    lemma_no_conflicts(*old(self), j as int, fullm, ms@);
                }
                self.merge_endpoint(j, ms, handler);
                proof {
                    assert(self.app.pat(j as int) == old(self).app.pat(j as int));
                    assert(key_seq(self.app.pat(j as int)) == key_seq(fullm));
                }
                Ok(())
            },
            None => {
                proof {
                    assert forall|j2: int| 0 <= j2 < old(self).app.n_res()
                        implies key_seq(#[trigger] old(self).app.pat(j2))
                            != key_seq(fullm) by {
                        assert(key_seq(self.app.pat(j2)) != key_seq(fullm));
                    }
                    lemma_no_key(*old(self), fullm, ms@);
                }
                proof {
                    assert(names@.map_values(|n: String| n@)
                        == crate::uri::names_of(fullm));
                }
                self.create_resource(full, names, ms, handler);
                proof {
                    let j = old(self).app.n_res();
                    assert(key_seq(self.app.pat(j)) == key_seq(fullm));
                    assert(self.app.res(j).capture_names@.map_values(|n: String| n@)
                        == crate::uri::names_of(fullm));
                }
                Ok(())
            },
        }
    }
}

impl Context {
    /// Adds one endpoint, serving the given methods, to resource `j`.
    #[verifier::rlimit(100)]
    fn merge_endpoint(&mut self, j: usize, ms: Vec<Method>, handler: usize)
        requires
            old(self).wf(),
            old(self).n_endpoints < usize::MAX,
            0 <= (j as int) < old(self).app.n_res(),
            forall|a: int, b: int| 0 <= a < b < ms@.len() ==> ms@[a] != ms@[b],
            forall|m: Method| ms@.contains(m)
                ==> find_method(old(self).app.res(j as int).allowed_methods@, m) is None,
        ensures
            final(self).wf(),
            final(self).current == old(self).current,
            final(self).n_endpoints == old(self).n_endpoints + 1,
            final(self).app.scopes == old(self).app.scopes,
            final(self).app.fallback_head == old(self).app.fallback_head,
            final(self).app.asterisk == old(self).app.asterisk,
            final(self).app.n_res() == old(self).app.n_res(),
            forall|i: int| 0 <= i < old(self).app.n_res()
                ==> #[trigger] final(self).app.pat(i) == old(self).app.pat(i),
            forall|i: int| 0 <= i < old(self).app.n_res() && i != j as int
                ==> #[trigger] final(self).app.res(i) == old(self).app.res(i),
            final(self).app.res(j as int).scope == old(self).app.res(j as int).scope,
            exists|ei: int| {
                &&& 0 <= ei < final(self).app.res(j as int).endpoints@.len()
                &&& (#[trigger] final(self).app.res(j as int).endpoints@[ei]).id
                    == old(self).n_endpoints
                &&& final(self).app.res(j as int).endpoints@[ei].handler == handler
                &&& forall|m: Method| ms@.contains(m)
                    ==> find_method(final(self).app.res(j as int).allowed_methods@, m)
                        == Some(ei as usize)
            },
            ({
                let rj = final(self).app.res(j as int);
                let oj = old(self).app.res(j as int);
                let ei = oj.endpoints@.len() as int;
                &&& rj.id == oj.id
                &&& rj.uri == oj.uri
                &&& rj.ancestors == oj.ancestors
                &&& rj.capture_names == oj.capture_names
                &&& rj.endpoints@.len() == oj.endpoints@.len() + 1
                &&& forall|t: int| 0 <= t < oj.endpoints@.len()
                    ==> #[trigger] rj.endpoints@[t] == oj.endpoints@[t]
                &&& rj.endpoints@[ei].id == old(self).n_endpoints
                &&& rj.endpoints@[ei].handler == handler
                &&& rj.endpoints@[ei].methods@ == ms@
                &&& rj.allowed_methods@ == oj.allowed_methods@
                    + ms@.map_values(|m: Method| (m, oj.endpoints@.len() as usize))
            }),
    {
        let ghost old_allowed = self.app.res(j as int).allowed_methods@;
        let ghost msm = ms@;
        let ei = self.app.resources[j].endpoints.len();
        let eid = self.n_endpoints;
        let methods_copy = copy_methods(&ms);
        self.app.resources[j].endpoints.push(Endpoint {
            id: eid,
            methods: methods_copy,
            handler,
        });
        proof {
            assert(self.app.resources@ =~= old(self).app.resources@.update(
                j as int,
                self.app.resources@[j as int],
            ));
        }
        let mut k: usize = 0;
        while k < ms.len()
            invariant
                k <= msm.len(),
                msm == ms@,
                0 <= (j as int) < self.app.n_res(),
                self.app.res(j as int).allowed_methods@
                    == old_allowed + msm.take(k as int).map_values(|m: Method| (m, ei)),
                self.app.scopes == old(self).app.scopes,
                self.app.recognizer == old(self).app.recognizer,
                self.app.asterisk == old(self).app.asterisk,
                self.app.fallback_head == old(self).app.fallback_head,
                self.current == old(self).current,
                self.n_endpoints == old(self).n_endpoints,
                self.app.n_res() == old(self).app.n_res(),
                self.app.resources@ == old(self).app.resources@.update(
                    j as int,
                    self.app.resources@[j as int],
                ),
                self.app.res(j as int).id == old(self).app.res(j as int).id,
                self.app.res(j as int).scope == old(self).app.res(j as int).scope,
                self.app.res(j as int).ancestors == old(self).app.res(j as int).ancestors,
                self.app.res(j as int).uri == old(self).app.res(j as int).uri,
                self.app.res(j as int).capture_names
                    == old(self).app.res(j as int).capture_names,
                self.app.res(j as int).endpoints@
                    == old(self).app.res(j as int).endpoints@.push(Endpoint {
                        id: eid,
                        methods: methods_copy,
                        handler,
                    }),
                ei == old(self).app.res(j as int).endpoints@.len(),
                eid == old(self).n_endpoints,
            decreases msm.len() - k,
        {
            let ghost before = self.app.res(j as int).allowed_methods@;
            let ghost prev_res = self.app.resources@;
            let m = ms[k];
            self.app.resources[j].allowed_methods.push((m, ei));
            proof {
                assert(self.app.resources@ =~= old(self).app.resources@.update(
                    j as int,
                    self.app.resources@[j as int],
                ));
                assert(self.app.res(j as int).allowed_methods@ =~= before.push((m, ei)));
                assert(msm.take(k as int + 1).map_values(|m: Method| (m, ei))
                    =~= msm.take(k as int).map_values(|m: Method| (m, ei)).push((m, ei)));
                assert(self.app.res(j as int).allowed_methods@
                    =~= old_allowed + msm.take(k as int + 1).map_values(
                        |m: Method| (m, ei),
                    ));
            }
            k = k + 1;
        }
        proof {
            assert(msm.take(msm.len() as int) =~= msm);
        }
        self.app.resources[j].update();
        self.n_endpoints = self.n_endpoints + 1;
        proof {
            assert(self.app.resources@ =~= old(self).app.resources@.update(
                j as int,
                self.app.resources@[j as int],
            ));
            assert forall|i: int| 0 <= i < old(self).app.n_res() && i != j as int
                implies #[trigger] self.app.res(i) == old(self).app.res(i) by {
                assert(self.app.resources@[i]
                    == old(self).app.resources@.update(
                        j as int,
                        self.app.resources@[j as int],
                    )[i]);
            }
            let mapped = msm.map_values(|m: Method| (m, ei));
            let r2 = self.app.res(j as int);
            assert(r2.allowed_methods@ == old_allowed + mapped);
            let mapped2 = msm.map_values(
                |m: Method| (m, old(self).app.res(j as int).endpoints@.len() as usize),
            );
            assert(mapped =~= mapped2) by {
                assert forall|t: int| 0 <= t < msm.len()
                    implies mapped[t] == mapped2[t] by {}
            }
            lemma_find_method_none_all(old_allowed, msm);
            // The merged resource is well formed.
            assert(r2.wf()) by {
                assert forall|a: int, b: int| 0 <= a < b < r2.allowed_methods@.len()
                    implies (#[trigger] r2.allowed_methods@[a]).0
                        != (#[trigger] r2.allowed_methods@[b]).0 by {
                    if b < old_allowed.len() {
                        assert(old(self).app.res(j as int).wf());
                        assert(old_allowed[a].0 != old_allowed[b].0);
                    } else if a < old_allowed.len() {
                        assert(r2.allowed_methods@[b] == mapped[b - old_allowed.len()]);
                        assert(msm.contains(msm[b - old_allowed.len()]));
                        assert(find_method(old_allowed, msm[b - old_allowed.len()])
                            is None);
                        assert(old_allowed[a].0 != msm[b - old_allowed.len()]);
                    } else {
                        assert(r2.allowed_methods@[a] == mapped[a - old_allowed.len()]);
                        assert(r2.allowed_methods@[b] == mapped[b - old_allowed.len()]);
                        assert(msm[a - old_allowed.len()] != msm[b - old_allowed.len()]);
                    }
                }
                assert forall|a: int| 0 <= a < r2.allowed_methods@.len()
                    implies (#[trigger] r2.allowed_methods@[a]).1
                        < r2.endpoints@.len() by {
                    if a < old_allowed.len() {
                        assert(old(self).app.res(j as int).wf());
                        assert(old_allowed[a].1
                            < old(self).app.res(j as int).endpoints@.len());
                    } else {
                        assert(r2.allowed_methods@[a] == mapped[a - old_allowed.len()]);
                    }
                }
            }
            // The method map reaches the new endpoint.
            assert forall|m: Method| msm.contains(m)
                implies find_method(r2.allowed_methods@, m) == Some(ei as usize) by {
                lemma_find_method_none(old_allowed, m);
                lemma_find_method_append(old_allowed, mapped, m);
                lemma_find_method_mapped(msm, ei, m);
            }
            assert(r2.endpoints@[ei as int].id == eid);
            assert(r2.endpoints@[ei as int].handler == handler);
            // The application stays well formed.
            assert(self.app.wf()) by {
                assert forall|i: int| 0 <= i < self.app.n_res() implies {
                    &&& (#[trigger] self.app.res(i)).id == i
                    &&& self.app.res(i).scope < self.app.scopes.len_spec()
                    &&& self.app.res(i).ancestors@
                        == self.app.scopes.anc(self.app.res(i).scope as int)
                    &&& self.app.res(i).uri@
                        == UriSpec::Segments(self.app.recognizer.pat_at(i))
                    &&& self.app.res(i).wf()
                } by {
                    assert(old(self).app.res(i).id == i);
                    if i != j as int {
                        assert(self.app.res(i) == old(self).app.res(i));
                    }
                }
                assert forall|i: int| 0 <= i < self.app.n_res()
                    implies pattern_proper(#[trigger] self.app.pat(i)) by {
                    assert(pattern_proper(old(self).app.pat(i)));
                }
            }
        }
    }
}

impl Context {
    /// Creates a new resource for a validated full pattern and registers
    /// its first endpoint.
    #[verifier::rlimit(100)]
    fn create_resource(&mut self, full: Vec<Segment>, names: Vec<String>, ms: Vec<Method>,
        handler: usize)
        requires
            old(self).wf(),
            old(self).n_endpoints < usize::MAX,
            forall|a: int, b: int| 0 <= a < b < ms@.len() ==> ms@[a] != ms@[b],
            pattern_proper(full@.map_values(|g: Segment| g@)),
            forall|j: int| 0 <= j < old(self).app.n_res()
                ==> key_seq(#[trigger] old(self).app.pat(j))
                    != key_seq(full@.map_values(|g: Segment| g@)),
        ensures
            final(self).wf(),
            final(self).current == old(self).current,
            final(self).n_endpoints == old(self).n_endpoints + 1,
            final(self).app.scopes == old(self).app.scopes,
            final(self).app.fallback_head == old(self).app.fallback_head,
            final(self).app.asterisk == old(self).app.asterisk,
            final(self).app.n_res() == old(self).app.n_res() + 1,
            forall|i: int| 0 <= i < old(self).app.n_res()
                ==> #[trigger] final(self).app.pat(i) == old(self).app.pat(i),
            forall|i: int| 0 <= i < old(self).app.n_res()
                ==> #[trigger] final(self).app.res(i) == old(self).app.res(i),
            ({
                let j = old(self).app.n_res();
                &&& final(self).app.pat(j) == full@.map_values(|g: Segment| g@)
                &&& final(self).app.res(j).scope == old(self).current
                &&& final(self).app.res(j).ancestors@
                    == old(self).app.scopes.anc(old(self).current as int)
                &&& final(self).app.res(j).capture_names == names
                &&& final(self).app.res(j).endpoints@.len() == 1
                &&& final(self).app.res(j).endpoints@[0].id == old(self).n_endpoints
                &&& final(self).app.res(j).endpoints@[0].handler == handler
                &&& final(self).app.res(j).endpoints@[0].methods@ == ms@
                &&& final(self).app.res(j).allowed_methods@
                    == ms@.map_values(|m: Method| (m, 0usize))
                &&& forall|m: Method| ms@.contains(m)
                    ==> find_method(final(self).app.res(j).allowed_methods@, m)
                        == Some(0usize)
            }),
    {
        let ghost fullm = full@.map_values(|g: Segment| g@);
        let ghost msm = ms@;
        let c = self.current;
        let uri_copy = crate::uri::clone_segments(&full);
        let id = match self.app.recognizer.insert(full) {
            Ok(id) => id,
            Err(_) => {
                proof {
                    let i = choose|i: int| 0 <= i < self.app.recognizer.count()
                        && key_seq(#[trigger] self.app.recognizer.pat_at(i))
                            == key_seq(fullm);
                    assert(key_seq(old(self).app.pat(i)) == key_seq(fullm));
                }
                vstd::pervasive::unreached()
            },
        };
        let methods_copy = copy_methods(&ms);
        let endpoint = Endpoint { id: self.n_endpoints, methods: methods_copy, handler };
        let mut endpoints: Vec<Endpoint> = Vec::new();
        endpoints.push(endpoint);
        let mut allowed: Vec<(Method, usize)> = Vec::new();
        let mut k: usize = 0;
        while k < ms.len()
            invariant
                k <= msm.len(),
                msm == ms@,
                allowed@ == msm.take(k as int).map_values(|m: Method| (m, 0usize)),
            decreases msm.len() - k,
        {
            allowed.push((ms[k], 0));
            proof {
                assert(msm.take(k as int + 1).map_values(|m: Method| (m, 0usize))
                    =~= msm.take(k as int).map_values(|m: Method| (m, 0usize)).push(
                        (msm[k as int], 0usize),
                    ));
                assert(allowed@ =~= msm.take(k as int + 1).map_values(
                    |m: Method| (m, 0usize),
                ));
            }
            k = k + 1;
        }
        proof {
            assert(msm.take(msm.len() as int) =~= msm);
        }
        let value = crate::handler::render_allow_header(&ms);
        let anc_len = self.app.scopes.nodes[c].ancestors.len();
        let ancestors = crate::strutil::take_prefix(&self.app.scopes.nodes[c].ancestors, anc_len);
        proof {
            assert(ancestors@ =~= self.app.scopes.anc(c as int));
        }
        let resource = Resource {
            id,
            scope: c,
            ancestors,
            uri: Uri::Segments(uri_copy),
            capture_names: names,
            endpoints,
            allowed_methods: allowed,
            allowed_methods_value: value,
        };
        proof {
            let mapped = msm.map_values(|m: Method| (m, 0usize));
            assert(resource.method_keys() =~= msm);
            assert(resource.wf()) by {
                assert forall|a: int, b: int| 0 <= a < b < mapped.len()
                    implies (#[trigger] mapped[a]).0 != (#[trigger] mapped[b]).0 by {
                    assert(msm[a] != msm[b]);
                }
            }
            assert forall|m: Method| msm.contains(m)
                implies find_method(resource.allowed_methods@, m) == Some(0usize) by {
                lemma_find_method_mapped(msm, 0usize, m);
            }
        }
        let ghost old_res = self.app.resources@;
        proof {
            assert(old_res == old(self).app.resources@);
        }
        self.app.resources.push(resource);
        self.n_endpoints = self.n_endpoints + 1;
        proof {
            assert(self.app.resources@ == old(self).app.resources@.push(resource));
            assert forall|i: int| 0 <= i < old_res.len()
                implies #[trigger] self.app.res(i) == old(self).app.res(i) by {
                assert(self.app.resources@[i] == old_res[i]);
            }
            assert(self.app.pat(id as int) == fullm);
            assert(self.app.res(id as int).uri@ == UriSpec::Segments(fullm));
            assert(self.app.wf()) by {
                assert forall|i: int| 0 <= i < self.app.n_res() implies {
                    &&& (#[trigger] self.app.res(i)).id == i
                    &&& self.app.res(i).scope < self.app.scopes.len_spec()
                    &&& self.app.res(i).ancestors@
                        == self.app.scopes.anc(self.app.res(i).scope as int)
                    &&& self.app.res(i).uri@
                        == UriSpec::Segments(self.app.recognizer.pat_at(i))
                    &&& self.app.res(i).wf()
                } by {
                    if i < id as int {
                        assert(self.app.resources@[i] == old_res[i]);
                        assert(self.app.res(i) == old(self).app.res(i));
                        assert(old(self).app.res(i).id == i);
                        assert(old(self).app.pat(i) == self.app.pat(i));
                    }
                }
                assert forall|i: int| 0 <= i < self.app.n_res()
                    implies pattern_proper(#[trigger] self.app.pat(i)) by {
                    if i < id as int {
                        assert(pattern_proper(old(self).app.pat(i)));
                    }
                }
            }
        }
    }
}

/// With a unique key-equal resource in the right scope and none of the
/// methods mapped, neither conflict holds.
proof fn lemma_no_conflicts(ctx: Context, j: int, fullspec: Seq<SegSpec>, ms: Seq<Method>)
    requires
        0 <= j < ctx.app.n_res(),
        key_seq(ctx.app.pat(j)) == key_seq(fullspec),
        ctx.app.res(j).scope == ctx.current,
        forall|j2: int| 0 <= j2 < ctx.app.n_res()
            && key_seq(#[trigger] ctx.app.pat(j2)) == key_seq(fullspec) ==> j2 == j,
        forall|m: Method| ms.contains(m)
            ==> find_method(ctx.app.res(j).allowed_methods@, m) is None,
    ensures
        !(exists|j2: int| 0 <= j2 < ctx.app.n_res()
            && key_seq(#[trigger] ctx.app.pat(j2)) == key_seq(fullspec)
            && ctx.app.res(j2).scope != ctx.current),
        !(exists|j2: int| 0 <= j2 < ctx.app.n_res()
            && key_seq(#[trigger] ctx.app.pat(j2)) == key_seq(fullspec)
            && ctx.app.res(j2).scope == ctx.current
            && exists|m: Method| ms.contains(m)
                && find_method(ctx.app.res(j2).allowed_methods@, m) is Some),
{
    if exists|j2: int| 0 <= j2 < ctx.app.n_res()
        && key_seq(#[trigger] ctx.app.pat(j2)) == key_seq(fullspec)
        && ctx.app.res(j2).scope != ctx.current {
        let j2 = choose|j2: int| 0 <= j2 < ctx.app.n_res()
            && key_seq(#[trigger] ctx.app.pat(j2)) == key_seq(fullspec)
            && ctx.app.res(j2).scope != ctx.current;
        assert(j2 == j);
    }
    if exists|j2: int| 0 <= j2 < ctx.app.n_res()
        && key_seq(#[trigger] ctx.app.pat(j2)) == key_seq(fullspec)
        && ctx.app.res(j2).scope == ctx.current
        && exists|m: Method| ms.contains(m)
            && find_method(ctx.app.res(j2).allowed_methods@, m) is Some {
        let j2 = choose|j2: int| 0 <= j2 < ctx.app.n_res()
            && key_seq(#[trigger] ctx.app.pat(j2)) == key_seq(fullspec)
            && ctx.app.res(j2).scope == ctx.current
            && exists|m: Method| ms.contains(m)
                && find_method(ctx.app.res(j2).allowed_methods@, m) is Some;
        assert(j2 == j);
        let m = choose|m: Method| ms.contains(m)
            && find_method(ctx.app.res(j2).allowed_methods@, m) is Some;
        assert(find_method(ctx.app.res(j).allowed_methods@, m) is None);
    }
}

/// With no key-equal resource at all, neither conflict holds.
proof fn lemma_no_key(ctx: Context, fullspec: Seq<SegSpec>, ms: Seq<Method>)
    requires
        forall|j2: int| 0 <= j2 < ctx.app.n_res()
            ==> key_seq(#[trigger] ctx.app.pat(j2)) != key_seq(fullspec),
    ensures
        !(exists|j2: int| 0 <= j2 < ctx.app.n_res()
            && key_seq(#[trigger] ctx.app.pat(j2)) == key_seq(fullspec)
            && ctx.app.res(j2).scope != ctx.current),
        !(exists|j2: int| 0 <= j2 < ctx.app.n_res()
            && key_seq(#[trigger] ctx.app.pat(j2)) == key_seq(fullspec)
            && ctx.app.res(j2).scope == ctx.current
            && exists|m: Method| ms.contains(m)
                && find_method(ctx.app.res(j2).allowed_methods@, m) is Some),
{
}

/// An application stays well formed when the arena grows and the old
/// nodes keep their values.
proof fn lemma_app_wf_arena_grow(a: AppData, b: AppData)
    requires
        a.wf(),
        b.scopes.wf(),
        b.scopes.len_spec() >= a.scopes.len_spec(),
        forall|i: int| 0 <= i < a.scopes.len_spec()
            ==> #[trigger] b.scopes.node(i) == a.scopes.node(i),
        b.recognizer == a.recognizer,
        b.resources == a.resources,
        b.asterisk == a.asterisk,
    ensures
        b.wf(),
{
    assert forall|i: int| 0 <= i < b.n_res() implies {
        &&& (#[trigger] b.res(i)).id == i
        &&& b.res(i).scope < b.scopes.len_spec()
        &&& b.res(i).ancestors@ == b.scopes.anc(b.res(i).scope as int)
        &&& b.res(i).uri@ == UriSpec::Segments(b.recognizer.pat_at(i))
        &&& b.res(i).wf()
    } by {
        assert(a.res(i).id == i);
        assert(b.res(i) == a.res(i));
        assert(b.scopes.node(a.res(i).scope as int) == a.scopes.node(a.res(i).scope as int));
    }
    assert forall|i: int| 0 <= i < b.n_res()
        implies pattern_proper(#[trigger] b.pat(i)) by {
        assert(pattern_proper(a.pat(i)));
    }
}

impl Context {
    /// Re-sets the prefix of the open scope: the parent's full prefix
    /// followed by the compiled pattern.
    pub fn set_prefix(&mut self, s: &str) -> (r: Result<(), Error>)
        requires
            old(self).wf(),
        ensures
            final(self).wf(),
            final(self).current == old(self).current,
            final(self).n_endpoints == old(self).n_endpoints,
            final(self).app.fallback_head == old(self).app.fallback_head,
            final(self).app.scopes.len_spec() == old(self).app.scopes.len_spec(),
            final(self).app.resources == old(self).app.resources,
            final(self).app.recognizer == old(self).app.recognizer,
            final(self).app.asterisk == old(self).app.asterisk,
            forall|i: int| 0 <= i < old(self).app.scopes.len_spec()
                && i != old(self).current as int
                ==> #[trigger] final(self).app.scopes.node(i)
                    == old(self).app.scopes.node(i),
            ({
                let c = old(self).current as int;
                let n = final(self).app.scopes.node(c);
                let o = old(self).app.scopes.node(c);
                n.parent == o.parent && n.ancestors == o.ancestors
                    && n.fallback == o.fallback && n.states == o.states
                    && n.modifiers == o.modifiers
            }),
            r == (match spec_compile(s@) {
                Err(e) => Err::<(), Error>(Error::Pattern(e)),
                Ok(UriSpec::Asterisk) => Err(Error::Pattern(PatternError::MalformedPattern)),
                Ok(UriSpec::Segments(_)) => Ok(()),
            }),
            r is Err ==> *final(self) == *old(self),
            r is Ok ==> {
                let parent = old(self).app.scopes.node(old(self).current as int).parent;
                let base = if old(self).current == 0 {
                    Seq::<SegSpec>::empty()
                } else {
                    old(self).app.scopes.node(parent as int).prefix@.map_values(
                        |g: Segment| g@,
                    )
                };
                final(self).cur_prefix() == base + (spec_compile(s@)->Ok_0)->Segments_0
            },
    {
        let compiled = match compile(s) {
            Ok(u) => u,
            Err(e) => {
                return Err(Error::Pattern(e));
            },
        };
        let segs = match compiled {
            Uri::Segments(v) => v,
            Uri::Asterisk => {
                return Err(Error::Pattern(PatternError::MalformedPattern));
            },
        };
        proof {
            crate::uri::lemma_segments_from_proper(s@, 1);
            assert(segs@.map_values(|g: Segment| g@) == crate::uri::segments_from(s@, 1));
        }
        let c = self.current;
        let full = if c == 0 {
            proof {
                assert(Seq::<Segment>::empty().map_values(|g: Segment| g@)
                    =~= Seq::<SegSpec>::empty());
            }
            segs
        } else {
            let parent = self.app.scopes.nodes[c].parent;
            proof {
                assert((self.app.scopes.node(c as int).parent as int) < c as int);
            }
            crate::uri::concat_segments(&self.app.scopes.nodes[parent].prefix, segs)
        };
        proof {
            assert(pattern_proper(full@.map_values(|g: Segment| g@))) by {
                let fm = full@.map_values(|g: Segment| g@);
                assert forall|k: int| 0 <= k < fm.len()
                    implies crate::uri::seg_proper(#[trigger] fm[k]) by {
                    if c != 0 {
                        let parent = old(self).app.scopes.node(c as int).parent;
                        let base = old(self).app.scopes.node(parent as int)
                            .prefix@.map_values(|g: Segment| g@);
                        if k < base.len() {
                            assert(fm[k] == base[k]);
                        } else {
                            assert(fm[k] == crate::uri::segments_from(s@, 1)[k - base.len()]);
                        }
                    } else {
                        assert(fm[k] == crate::uri::segments_from(s@, 1)[k]);
                    }
                }
            }
        }
        let text = crate::uri::render(&full);
        self.app.scopes.nodes[c].prefix = full;
        self.app.scopes.nodes[c].prefix_text = text;
        proof {
            lemma_ctx_wf_prefix_touch(*old(self), *self, c as int);
        }
        Ok(())
    }

    /// Opens a child scope of the open scope; its full prefix is the open
    /// scope's prefix followed by the compiled pattern, if one is given.
    pub fn add_scope_with_prefix(&mut self, prefix_pattern: Option<String>)
        -> (r: Result<usize, Error>)
        requires
            old(self).wf(),
        ensures
            final(self).wf(),
            final(self).current == old(self).current,
            final(self).n_endpoints == old(self).n_endpoints,
            final(self).app.fallback_head == old(self).app.fallback_head,
            final(self).app.scopes.len_spec() >= old(self).app.scopes.len_spec(),
            final(self).app.resources == old(self).app.resources,
            final(self).app.recognizer == old(self).app.recognizer,
            final(self).app.asterisk == old(self).app.asterisk,
            forall|i: int| 0 <= i < old(self).app.scopes.len_spec()
                ==> #[trigger] final(self).app.scopes.node(i) == old(self).app.scopes.node(i),
            r == (match prefix_pattern {
                None => Ok::<usize, Error>(old(self).app.scopes.len_spec() as usize),
                Some(p) => match spec_compile(p@) {
                    Err(e) => Err(Error::Pattern(e)),
                    Ok(UriSpec::Asterisk) => Err(Error::Pattern(
                        PatternError::MalformedPattern,
                    )),
                    Ok(UriSpec::Segments(_)) => Ok(old(self).app.scopes.len_spec() as usize),
                },
            }),
            r is Err ==> *final(self) == *old(self),
            r matches Ok(id) ==> {
                &&& id == old(self).app.scopes.len_spec()
                &&& final(self).app.scopes.len_spec() == old(self).app.scopes.len_spec() + 1
                &&& final(self).app.scopes.node(id as int).parent == old(self).current
                &&& final(self).app.scopes.node(id as int).ancestors@
                    == old(self).app.scopes.anc(old(self).current as int).push(id)
                &&& final(self).app.scopes.node(id as int).prefix@.map_values(
                    |g: Segment| g@,
                ) == old(self).cur_prefix() + (match prefix_pattern {
                    None => Seq::<SegSpec>::empty(),
                    Some(p) => (spec_compile(p@)->Ok_0)->Segments_0,
                })
            },
    {
        let segs: Vec<Segment> = match &prefix_pattern {
            None => {
                let v: Vec<Segment> = Vec::new();
                proof {
                    assert(v@.map_values(|g: Segment| g@) =~= Seq::<SegSpec>::empty());
                }
                v
            },
            Some(p) => {
                match compile(p.as_str()) {
                    Ok(Uri::Segments(v)) => {
                        proof {
                            crate::uri::lemma_segments_from_proper(p@, 1);
                            assert(v@.map_values(|g: Segment| g@)
                                == crate::uri::segments_from(p@, 1));
                        }
                        v
                    },
                    Ok(Uri::Asterisk) => {
                        return Err(Error::Pattern(PatternError::MalformedPattern));
                    },
                    Err(e) => {
                        return Err(Error::Pattern(e));
                    },
                }
            },
        };
        let c = self.current;
        let full = crate::uri::concat_segments(&self.app.scopes.nodes[c].prefix, segs);
        proof {
            assert(pattern_proper(full@.map_values(|g: Segment| g@))) by {
                let fm = full@.map_values(|g: Segment| g@);
                let base = old(self).cur_prefix();
                assert forall|k: int| 0 <= k < fm.len()
                    implies crate::uri::seg_proper(#[trigger] fm[k]) by {
                    if k < base.len() {
                        assert(fm[k] == base[k]);
                    } else {
                        assert(fm[k] == (fm.skip(base.len() as int))[k - base.len()]);
                    }
                }
            }
        }
        let id = self.app.scopes.new_scope(c, full);
        proof {
            assert(self.app.scopes.node(id as int).ancestors@
                =~= old(self).app.scopes.anc(c as int).push(id));
            lemma_app_wf_arena_grow(old(self).app, self.app);
            assert forall|i: int| 0 <= i < self.app.scopes.len_spec()
                implies pattern_proper(
                    (#[trigger] self.app.scopes.node(i)).prefix@.map_values(
                        |g: Segment| g@,
                    ),
                ) by {
                if i < id as int {
                    assert(self.app.scopes.node(i) == old(self).app.scopes.node(i));
                    assert(pattern_proper(
                        old(self).app.scopes.node(i).prefix@.map_values(|g: Segment| g@),
                    ));
                }
            }
        }
        Ok(id)
    }
}

/// A context stays well formed when one node's prefix was re-rendered.
proof fn lemma_ctx_wf_prefix_touch(a: Context, b: Context, c: int)
    requires
        a.wf(),
        0 <= c < a.app.scopes.len_spec(),
        b.current == a.current,
        b.app.recognizer == a.app.recognizer,
        b.app.resources == a.app.resources,
        b.app.asterisk == a.app.asterisk,
        b.app.scopes.nodes@.len() == a.app.scopes.nodes@.len(),
        forall|i: int| 0 <= i < a.app.scopes.len_spec() && i != c
            ==> #[trigger] b.app.scopes.node(i) == a.app.scopes.node(i),
        b.app.scopes.node(c).parent == a.app.scopes.node(c).parent,
        b.app.scopes.node(c).ancestors@ == a.app.scopes.node(c).ancestors@,
        b.app.scopes.node(c).prefix_text@ == crate::uri::render_path(
            b.app.scopes.node(c).prefix@.map_values(|g: Segment| g@),
        ),
        pattern_proper(b.app.scopes.node(c).prefix@.map_values(|g: Segment| g@)),
        b.app.scopes.node(c).states@ == a.app.scopes.node(c).states@,
        b.app.scopes.node(c).modifiers@ == a.app.scopes.node(c).modifiers@,
        b.app.scopes.node(c).fallback == a.app.scopes.node(c).fallback,
    ensures
        b.wf(),
{
    assert forall|i: int| 0 <= i < b.app.scopes.len_spec()
        implies #[trigger] b.app.scopes.anc(i) == a.app.scopes.anc(i) by {
        if i != c {
            assert(b.app.scopes.node(i) == a.app.scopes.node(i));
        }
    }
    assert(b.app.scopes.wf()) by {
        assert(b.app.scopes.anc(0) =~= seq![0usize]);
        assert forall|i: int| 1 <= i < b.app.scopes.len_spec()
            implies (#[trigger] b.app.scopes.node(i).parent) < i by {
            if i != c {
                assert(b.app.scopes.node(i) == a.app.scopes.node(i));
            }
            assert(a.app.scopes.node(i).parent < i);
        }
        assert forall|i: int| 1 <= i < b.app.scopes.len_spec()
            implies #[trigger] b.app.scopes.anc(i)
                =~= b.app.scopes.anc(b.app.scopes.node(i).parent as int).push(i as usize) by {
            assert(a.app.scopes.anc(i)
                =~= a.app.scopes.anc(a.app.scopes.node(i).parent as int).push(i as usize));
            if i != c {
                assert(b.app.scopes.node(i) == a.app.scopes.node(i));
            }
        }
        assert forall|i: int| 0 <= i < b.app.scopes.len_spec() implies {
            &&& (#[trigger] b.app.scopes.anc(i)).len() >= 1
            &&& b.app.scopes.anc(i)[0] == 0usize
            &&& b.app.scopes.anc(i).last() == i as usize
            &&& forall|t: int| 0 <= t < b.app.scopes.anc(i).len()
                ==> (#[trigger] b.app.scopes.anc(i)[t]) as int <= i
            &&& forall|a2: int, b2: int| 0 <= a2 < b2 < b.app.scopes.anc(i).len()
                ==> b.app.scopes.anc(i)[a2] < b.app.scopes.anc(i)[b2]
        } by {
            assert(a.app.scopes.anc(i).len() >= 1);
        }
        assert forall|i: int| 0 <= i < b.app.scopes.len_spec()
            implies (#[trigger] b.app.scopes.node(i).prefix_text@)
                == crate::uri::render_path(
                    b.app.scopes.node(i).prefix@.map_values(|g: Segment| g@),
                ) by {
            if i != c {
                assert(b.app.scopes.node(i) == a.app.scopes.node(i));
                assert(a.app.scopes.node(i).prefix_text@ == crate::uri::render_path(
                    a.app.scopes.node(i).prefix@.map_values(|g: Segment| g@),
                ));
            }
        }
    }
    lemma_app_wf_same_resources(a.app, b.app);
    assert forall|i: int| 0 <= i < b.app.scopes.len_spec()
        implies pattern_proper(
            (#[trigger] b.app.scopes.node(i)).prefix@.map_values(|g: Segment| g@),
        ) by {
        if i != c {
            assert(b.app.scopes.node(i) == a.app.scopes.node(i));
            assert(pattern_proper(
                a.app.scopes.node(i).prefix@.map_values(|g: Segment| g@),
            ));
        }
    }
}

impl Context {
    /// Applies recorded instructions to the open scope: routes register
    /// here, enter and leave marks open and close child scopes, and state,
    /// modifier, fallback and prefix instructions act on the innermost
    /// open scope.
    pub fn run_items(&mut self, items: Vec<ScopeItem>) -> (r: Result<(), Error>)
        requires
            old(self).wf(),
        ensures
            final(self).wf(),
            final(self).app.fallback_head == old(self).app.fallback_head,
            old(self).app.scopes.len_spec() <= final(self).app.scopes.len_spec(),
            forall|i: int| 0 <= i < old(self).app.scopes.len_spec() ==> {
                &&& (#[trigger] final(self).app.scopes.node(i)).parent
                    == old(self).app.scopes.node(i).parent
                &&& final(self).app.scopes.node(i).ancestors@
                    == old(self).app.scopes.node(i).ancestors@
            },
            r is Ok ==> final(self).current == old(self).current,
            r is Ok ==> final(self).n_endpoints == old(self).n_endpoints + n_routes(items@),
            r is Ok ==> final(self).app.scopes.len_spec()
                == old(self).app.scopes.len_spec() + n_enters(items@),
    {
        let saved = self.current;
        let mut stack: Vec<usize> = Vec::new();
        let mut rest = items;
        let total = rest.len();
        let ghost items_model = rest@;
        let mut k: usize = 0;
        while k < total
            invariant
                k <= total,
                total == items_model.len(),
                rest@ == items_model.skip(k as int),
                self.wf(),
                self.app.fallback_head == old(self).app.fallback_head,
                old(self).app.scopes.len_spec() <= self.app.scopes.len_spec(),
                self.n_endpoints as int
                    == old(self).n_endpoints + n_routes(items_model.take(k as int)),
                self.app.scopes.len_spec()
                    == old(self).app.scopes.len_spec() + n_enters(items_model.take(k as int)),
                forall|i: int| 0 <= i < old(self).app.scopes.len_spec() ==> {
                    &&& (#[trigger] self.app.scopes.node(i)).parent
                        == old(self).app.scopes.node(i).parent
                    &&& self.app.scopes.node(i).ancestors@
                        == old(self).app.scopes.node(i).ancestors@
                },
                saved == old(self).current,
                saved < old(self).app.scopes.len_spec(),
                forall|t: int| 0 <= t < stack@.len()
                    ==> (#[trigger] stack@[t]) < self.app.scopes.len_spec(),
            decreases total - k,
        {
            proof {
                assert(rest@.len() == items_model.len() - k);
                assert(items_model.skip(k as int)[0] == items_model[k as int]);
                assert(items_model.skip(k as int).skip(1)
                    =~= items_model.skip(k as int + 1));
                assert(items_model.take(k as int + 1).drop_last()
                    =~= items_model.take(k as int));
                assert(items_model.take(k as int + 1).last() == items_model[k as int]);
                lemma_counts_bounded(items_model.take(k as int));
            }
            let item = rest.remove(0);
            let ghost len_before = self.app.scopes.len_spec();
            let ghost pre = *self;
            match item {
                ScopeItem::Route(decl) => {
                    if self.n_endpoints == usize::MAX {
                        return Err(Error::TooManyEndpoints);
                    }
                    match self.add_route(decl) {
                        Ok(()) => {},
                        Err(e) => {
                            return Err(e);
                        },
                    }
                },
                ScopeItem::Enter(prefix_pattern) => {
                    match self.add_scope_with_prefix(prefix_pattern) {
                        Ok(child) => {
                            stack.push(self.current);
                            self.current = child;
                            proof {
                                assert forall|t: int| 0 <= t < stack@.len()
                                    implies (#[trigger] stack@[t])
                                        < self.app.scopes.len_spec() by {
                                    if t < stack@.len() - 1 {
                                        assert(stack@[t] < len_before);
                                    }
                                }
                            }
                        },
                        Err(e) => {
                            return Err(e);
                        },
                    }
                },
                ScopeItem::Leave => {
                    if stack.len() > 0 {
                        match stack.pop() {
                            Some(top) => {
                                self.current = top;
                            },
                            None => {},
                        }
                    }
                },
                ScopeItem::State(tag, value) => {
                    self.set_state(tag, value);
                },
                ScopeItem::Modifier(token) => {
                    self.add_modifier(token);
                },
                ScopeItem::Fallback(token) => {
                    self.set_fallback(token);
                },
                ScopeItem::SetPrefix(p) => {
                    match self.set_prefix(p.as_str()) {
                        Ok(()) => {},
                        Err(e) => {
                            return Err(e);
                        },
                    }
                },
            }
            proof {
                assert forall|i: int| 0 <= i < old(self).app.scopes.len_spec() implies {
                    &&& (#[trigger] self.app.scopes.node(i)).parent
                        == old(self).app.scopes.node(i).parent
                    &&& self.app.scopes.node(i).ancestors@
                        == old(self).app.scopes.node(i).ancestors@
                } by {
                    if i != pre.current as int {
                        if self.app.scopes.node(i) == pre.app.scopes.node(i) {
                        }
                    }
                    assert(pre.app.scopes.node(i).parent
                        == old(self).app.scopes.node(i).parent);
                }
            }
            k = k + 1;
        }
        self.current = saved;
        Ok(())
    }

    /// Creates a child scope of the open scope and applies a configuration
    /// inside it.
    pub fn add_scope<S: Scope>(&mut self, new_scope: S) -> (r: Result<(), Error>)
        requires
            old(self).wf(),
        ensures
            final(self).wf(),
            final(self).current == old(self).current,
            final(self).app.fallback_head == old(self).app.fallback_head,
            old(self).app.scopes.len_spec() < final(self).app.scopes.len_spec(),
            ({
                let child = old(self).app.scopes.len_spec();
                &&& final(self).app.scopes.node(child).parent == old(self).current
                &&& final(self).app.scopes.node(child).ancestors@
                    == old(self).app.scopes.anc(old(self).current as int).push(
                        child as usize,
                    )
            }),
    {
        let saved = self.current;
        let ghost entry = *self;
        let child = match self.add_scope_with_prefix(None) {
            Ok(child) => child,
            Err(e) => {
                return Err(e);
            },
        };
        self.current = child;
        let ghost mid = *self;
        let r = new_scope.configure(self);
        self.current = saved;
        proof {
            assert(saved < self.app.scopes.len_spec());
            assert(self.app.scopes.node(child as int).parent
                == mid.app.scopes.node(child as int).parent);
            assert(mid.app.scopes.node(child as int).ancestors@
                == entry.app.scopes.anc(entry.current as int).push(child));
        }
        r
    }
}

/// A set of declarations that can be applied to a scope under
/// construction.
pub trait Scope: Sized {
    fn configure(self, cx: &mut Context) -> (r: Result<(), Error>)
        requires
            old(cx).wf(),
        ensures
            final(cx).wf(),
            final(cx).app.fallback_head == old(cx).app.fallback_head,
            old(cx).app.scopes.len_spec() <= final(cx).app.scopes.len_spec(),
            forall|i: int| 0 <= i < old(cx).app.scopes.len_spec() ==> {
                &&& (#[trigger] final(cx).app.scopes.node(i)).parent
                    == old(cx).app.scopes.node(i).parent
                &&& final(cx).app.scopes.node(i).ancestors@
                    == old(cx).app.scopes.node(i).ancestors@
            },
            r is Ok ==> final(cx).current == old(cx).current,
    ;
}

impl Scope for Builder {
    fn configure(self, cx: &mut Context) -> (r: Result<(), Error>) {
        let ghost entry = *cx;
        match self.prefix_pattern {
            Some(p) => {
                match cx.set_prefix(p.as_str()) {
                    Ok(()) => {},
                    Err(e) => {
                        return Err(e);
                    },
                }
            },
            None => {},
        }
        proof {
            assert forall|i: int| 0 <= i < entry.app.scopes.len_spec() implies {
                &&& (#[trigger] cx.app.scopes.node(i)).parent
                    == entry.app.scopes.node(i).parent
                &&& cx.app.scopes.node(i).ancestors@
                    == entry.app.scopes.node(i).ancestors@
            } by {
                if i != entry.current as int {
                    if cx.app.scopes.node(i) == entry.app.scopes.node(i) {
                    }
                }
            }
        }
        let ghost mid = *cx;
        let r = cx.run_items(self.items);
        proof {
            assert forall|i: int| 0 <= i < entry.app.scopes.len_spec() implies {
                &&& (#[trigger] cx.app.scopes.node(i)).parent
                    == entry.app.scopes.node(i).parent
                &&& cx.app.scopes.node(i).ancestors@
                    == entry.app.scopes.node(i).ancestors@
            } by {
                assert(mid.app.scopes.node(i).parent == entry.app.scopes.node(i).parent);
            }
        }
        r
    }
}

impl Scope for RouteDecl {
    fn configure(self, cx: &mut Context) -> (r: Result<(), Error>) {
        if cx.n_endpoints == usize::MAX {
            return Err(Error::TooManyEndpoints);
        }
        cx.add_route(self)
    }
}

impl Scope for () {
    fn configure(self, cx: &mut Context) -> (r: Result<(), Error>) {
        Ok(())
    }
}

impl Builder {
    /// Freezes this configuration into a servable application, rooted at
    /// `/`.  An instruction that fails aborts the build: no application is
    /// produced.
    pub fn build(self) -> (r: Result<crate::app::App, Error>)
        ensures
            r matches Ok(app) ==> app.data.wf()
                && app.data.fallback_head == self.fallback_head
                && app.data.scopes.len_spec() == 1 + n_enters(self.items@),
    {
        crate::app::App::with_prefix("/", self)
    }
}

/// Entries absent from a method map stay absent pointwise.
proof fn lemma_find_method_none_all(allowed: Seq<(Method, usize)>, ms: Seq<Method>)
    requires
        forall|m: Method| ms.contains(m) ==> find_method(allowed, m) is None,
    ensures
        forall|t: int, u: int| 0 <= t < allowed.len() && 0 <= u < ms.len()
            ==> (#[trigger] allowed[t]).0 != #[trigger] ms[u],
{
    assert forall|t: int, u: int| 0 <= t < allowed.len() && 0 <= u < ms.len()
        implies (#[trigger] allowed[t]).0 != #[trigger] ms[u] by {
        assert(ms.contains(ms[u]));
        lemma_find_method_none(allowed, ms[u]);
    }
}

/// A context stays well formed when a node's states, modifiers or
/// fallback changed and everything else kept its shape.
proof fn lemma_ctx_wf_node_touch(a: Context, b: Context, c: int)
    requires
        a.wf(),
        0 <= c < a.app.scopes.len_spec(),
        b.current == a.current,
        b.app.recognizer == a.app.recognizer,
        b.app.resources == a.app.resources,
        b.app.asterisk == a.app.asterisk,
        b.app.scopes.nodes@.len() == a.app.scopes.nodes@.len(),
        forall|i: int| 0 <= i < a.app.scopes.len_spec() && i != c
            ==> #[trigger] b.app.scopes.node(i) == a.app.scopes.node(i),
        b.app.scopes.node(c).parent == a.app.scopes.node(c).parent,
        b.app.scopes.node(c).ancestors@ == a.app.scopes.node(c).ancestors@,
        b.app.scopes.node(c).prefix@ == a.app.scopes.node(c).prefix@,
        b.app.scopes.node(c).prefix_text@ == a.app.scopes.node(c).prefix_text@,
    ensures
        b.wf(),
{
    assert forall|i: int| 0 <= i < a.app.scopes.len_spec() implies {
        &&& (#[trigger] b.app.scopes.node(i)).parent == a.app.scopes.node(i).parent
        &&& b.app.scopes.node(i).ancestors@ == a.app.scopes.node(i).ancestors@
        &&& b.app.scopes.node(i).prefix@ == a.app.scopes.node(i).prefix@
        &&& b.app.scopes.node(i).prefix_text@ == a.app.scopes.node(i).prefix_text@
    } by {
        if i != c {
            assert(b.app.scopes.node(i) == a.app.scopes.node(i));
        }
    }
    lemma_arena_wf_same_shape(a.app.scopes, b.app.scopes);
    lemma_app_wf_same_resources(a.app, b.app);
    assert forall|i: int| 0 <= i < b.app.scopes.len_spec()
        implies pattern_proper(
            (#[trigger] b.app.scopes.node(i)).prefix@.map_values(|g: Segment| g@),
        ) by {
        assert(pattern_proper(a.app.scopes.node(i).prefix@.map_values(|g: Segment| g@)));
        assert(b.app.scopes.node(i).prefix@ == a.app.scopes.node(i).prefix@);
    }
}

/// Two arenas of one shape (same parents, ancestors, prefixes) are equally
/// well formed.
proof fn lemma_arena_wf_same_shape(a: Arena, b: Arena)
    requires
        a.wf(),
        b.nodes@.len() == a.nodes@.len(),
        forall|i: int| 0 <= i < a.nodes@.len() ==> {
            &&& (#[trigger] b.node(i)).parent == a.node(i).parent
            &&& b.node(i).ancestors@ == a.node(i).ancestors@
            &&& b.node(i).prefix@ == a.node(i).prefix@
            &&& b.node(i).prefix_text@ == a.node(i).prefix_text@
        },
    ensures
        b.wf(),
{
    assert forall|i: int| 0 <= i < b.len_spec() implies #[trigger] b.anc(i) == a.anc(i) by {
        assert(b.node(i).ancestors@ == a.node(i).ancestors@);
    }
    assert(b.anc(0) =~= seq![0usize]);
    assert forall|i: int| 1 <= i < b.len_spec()
        implies #[trigger] b.anc(i) =~= b.anc(b.node(i).parent as int).push(i as usize) by {
        assert(a.anc(i) =~= a.anc(a.node(i).parent as int).push(i as usize));
    }
    assert forall|i: int| 0 <= i < b.len_spec() implies {
        &&& (#[trigger] b.anc(i)).len() >= 1
        &&& b.anc(i)[0] == 0usize
        &&& b.anc(i).last() == i as usize
        &&& forall|t: int| 0 <= t < b.anc(i).len() ==> (#[trigger] b.anc(i)[t]) as int <= i
        &&& forall|a2: int, b2: int| 0 <= a2 < b2 < b.anc(i).len()
            ==> b.anc(i)[a2] < b.anc(i)[b2]
    } by {
        assert(a.anc(i).len() >= 1);
    }
    assert forall|i: int| 0 <= i < b.len_spec()
        implies (#[trigger] b.node(i).prefix_text@)
            == crate::uri::render_path(b.node(i).prefix@.map_values(|g: Segment| g@)) by {
        assert(a.node(i).prefix_text@
            == crate::uri::render_path(a.node(i).prefix@.map_values(|g: Segment| g@)));
        assert(b.node(i).prefix@.map_values(|g: Segment| g@)
            == a.node(i).prefix@.map_values(|g: Segment| g@));
    }
}

/// An application stays well formed when only its scope arena changed
/// shape-preservingly.
proof fn lemma_app_wf_same_resources(a: AppData, b: AppData)
    requires
        a.wf(),
        b.scopes.wf(),
        b.scopes.len_spec() == a.scopes.len_spec(),
        forall|i: int| 0 <= i < a.scopes.len_spec()
            ==> (#[trigger] b.scopes.node(i)).ancestors@ == a.scopes.node(i).ancestors@,
        b.recognizer == a.recognizer,
        b.resources == a.resources,
        b.asterisk == a.asterisk,
    ensures
        b.wf(),
{
    assert forall|i: int| 0 <= i < b.n_res() implies {
        &&& (#[trigger] b.res(i)).id == i
        &&& b.res(i).scope < b.scopes.len_spec()
        &&& b.res(i).ancestors@ == b.scopes.anc(b.res(i).scope as int)
        &&& b.res(i).uri@ == UriSpec::Segments(b.recognizer.pat_at(i))
        &&& b.res(i).wf()
    } by {
        assert(a.res(i).id == i);
        assert(b.res(i) == a.res(i));
    }
    assert forall|i: int| 0 <= i < b.n_res()
        implies pattern_proper(#[trigger] b.pat(i)) by {
        assert(pattern_proper(a.pat(i)));
    }
}

} // verus!
