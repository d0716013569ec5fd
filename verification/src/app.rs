//! The frozen application: the resource table, the scope tree and the
//! resolution engine that maps a request's path and method to an endpoint,
//! a method-not-allowed resource, or a not-found outcome with its owning
//! scope.

use vstd::prelude::*;
use crate::method::Method;
use crate::handler::{allow_header, render_allow_header};
use crate::recognizer::{
    Captures, RecognizeResult, Recognizer, all_literal, lemma_lex_lt_all_zero,
    lemma_literal_matches_render, lemma_literal_matchers_equal, precedes, rank,
    uri_captures, uri_matches,
};
use crate::strutil::{is_prefix_of, lcp, str_starts_with, lcp_usize, take_prefix};
use crate::tree::{Arena, ScopeId};
use crate::uri::{Segment, SegSpec, Uri, UriSpec, render_path, spec_compile};

verus! {

/// One (methods, handler) registration within a resource.
#[derive(Debug)]
pub struct Endpoint {
    /// The global registration order of the endpoint.
    pub id: usize,
    /// The methods the endpoint answers.
    pub methods: Vec<Method>,
    /// The token of the handler, interpreted by the caller.
    pub handler: usize,
}

/// The set of endpoints registered at one fully resolved URI.
#[derive(Debug)]
pub struct Resource {
    /// The index of the resource.
    pub id: usize,
    /// The arena index of the owning scope.
    pub scope: usize,
    /// The ancestor chain of the owning scope.
    pub ancestors: Vec<usize>,
    /// The fully resolved pattern.
    pub uri: Uri,
    /// The capture names of the pattern, in order.
    pub capture_names: Vec<String>,
    /// The endpoints of the resource, in registration order.
    pub endpoints: Vec<Endpoint>,
    /// Which endpoint serves each method, in registration order.
    pub allowed_methods: Vec<(Method, usize)>,
    /// The precomputed `Allow` header value.
    pub allowed_methods_value: String,
}

/// The first endpoint index registered for `m`, if any.
pub open spec fn find_method(ms: Seq<(Method, usize)>, m: Method) -> Option<usize>
    decreases ms.len(),
{
    if ms.len() == 0 {
        None
    } else if ms[0].0 == m {
        Some(ms[0].1)
    } else {
        find_method(ms.drop_first(), m)
    }
}

/// A found endpoint index is one of the mapped values.
pub proof fn lemma_find_method_in(ms: Seq<(Method, usize)>, m: Method)
    requires
        find_method(ms, m) is Some,
    ensures
        exists|t: int| 0 <= t < ms.len() && (#[trigger] ms[t]).0 == m
            && ms[t].1 == find_method(ms, m)->Some_0,
    decreases ms.len(),
{
    if ms.len() > 0 && ms[0].0 != m {
        lemma_find_method_in(ms.drop_first(), m);
        let t = choose|t: int| 0 <= t < ms.drop_first().len()
            && (#[trigger] ms.drop_first()[t]).0 == m
            && ms.drop_first()[t].1 == find_method(ms.drop_first(), m)->Some_0;
        assert(ms[t + 1].0 == m && ms[t + 1].1 == find_method(ms, m)->Some_0);
    }
}

impl Resource {
    /// The methods the resource answers, in registration order.
    pub open spec fn method_keys(self) -> Seq<Method> {
        self.allowed_methods@.map_values(|e: (Method, usize)| e.0)
    }

    /// Each method maps to at most one endpoint, the mapped indices are
    /// valid, and the `Allow` value is rendered from the methods.
    pub open spec fn wf(self) -> bool {
        &&& forall|a: int, b: int| 0 <= a < b < self.allowed_methods@.len()
            ==> (#[trigger] self.allowed_methods@[a]).0
                != (#[trigger] self.allowed_methods@[b]).0
        &&& forall|a: int| 0 <= a < self.allowed_methods@.len()
            ==> (#[trigger] self.allowed_methods@[a]).1 < self.endpoints@.len()
        &&& self.allowed_methods_value@ == allow_header(self.method_keys())
    }

    /// Looks the endpoint serving `m` up.
    pub fn recognize(&self, m: &Method) -> (r: Option<usize>)
        ensures
            r == find_method(self.allowed_methods@, *m),
    {
        let ghost ms = self.allowed_methods@;
        let mut k: usize = 0;
        proof {
            assert(ms.skip(0) =~= ms);
        }
        while k < self.allowed_methods.len()
            invariant
                k <= ms.len(),
                ms == self.allowed_methods@,
                find_method(ms.skip(k as int), *m) == find_method(ms, *m),
            decreases ms.len() - k,
        {
            proof {
                assert(ms.skip(k as int)[0] == ms[k as int]);
                assert(ms.skip(k as int).drop_first() =~= ms.skip(k as int + 1));
            }
            if self.allowed_methods[k].0 == *m {
                return Some(self.allowed_methods[k].1);
            }
            k = k + 1;
        }
        proof {
            assert(ms.skip(ms.len() as int) =~= Seq::<(Method, usize)>::empty());
        }
        None
    }

    /// The value of the `Allow` header of this resource.
    pub fn allowed_methods_header(&self) -> (r: &String)
        ensures
            r@ == self.allowed_methods_value@,
    {
        &self.allowed_methods_value
    }

    /// Recomputes the `Allow` value from the registered methods.
    pub fn update(&mut self)
        ensures
            final(self).allowed_methods_value@ == allow_header(final(self).method_keys()),
            final(self).id == old(self).id,
            final(self).scope == old(self).scope,
            final(self).ancestors == old(self).ancestors,
            final(self).uri == old(self).uri,
            final(self).capture_names == old(self).capture_names,
            final(self).endpoints == old(self).endpoints,
            final(self).allowed_methods == old(self).allowed_methods,
    {
        let mut keys: Vec<Method> = Vec::new();
        let mut k: usize = 0;
        while k < self.allowed_methods.len()
            invariant
                *self == *old(self),
                k <= self.allowed_methods@.len(),
                keys@ =~= self.method_keys().take(k as int),
            decreases self.allowed_methods@.len() - k,
        {
            keys.push(self.allowed_methods[k].0);
            proof {
                assert(keys@ =~= self.method_keys().take(k as int + 1));
            }
            k = k + 1;
        }
        proof {
            assert(keys@ =~= self.method_keys());
        }
        self.allowed_methods_value = render_allow_header(&keys);
    }
}

/// The result of routing one request.
#[derive(Debug)]
pub enum RouterResult {
    /// The path and the method both match: this endpoint serves the
    /// request.  `resource` is `None` for the out-of-band asterisk target.
    /// `fallback_head` says that a `HEAD` request was served by the `GET`
    /// endpoint.
    FoundEndpoint {
        resource: Option<usize>,
        endpoint: usize,
        endpoint_id: usize,
        handler: usize,
        fallback_head: bool,
        captures: Captures,
    },
    /// The path matches a resource, but no endpoint answers the method.
    FoundResource { resource: Option<usize>, captures: Captures, scope: ScopeId },
    /// The path matches no resource; `resources` are the partially matching
    /// candidates and `scope` the inferred owning scope.
    NotFound { resources: Vec<usize>, scope: ScopeId },
}

/// The frozen serving structure: recognizer, scope tree and resource table.
#[derive(Debug)]
pub struct AppData {
    pub recognizer: Recognizer,
    pub scopes: Arena,
    pub resources: Vec<Resource>,
    /// The resource of the out-of-band asterisk target, if declared.
    pub asterisk: Option<Resource>,
    /// Whether a `HEAD` request may fall back to the `GET` endpoint.
    pub fallback_head: bool,
}

impl AppData {
    pub open spec fn n_res(self) -> int {
        self.resources@.len() as int
    }

    pub open spec fn res(self, i: int) -> Resource {
        self.resources@[i]
    }

    /// The pattern model of resource `i`.
    pub open spec fn pat(self, i: int) -> Seq<SegSpec> {
        self.recognizer.pat_at(i)
    }

    pub open spec fn wf(self) -> bool {
        &&& self.scopes.wf()
        &&& self.recognizer.wf()
        &&& self.n_res() == self.recognizer.count()
        &&& forall|i: int| 0 <= i < self.n_res() ==> {
            &&& (#[trigger] self.res(i)).id == i
            &&& self.res(i).scope < self.scopes.len_spec()
            &&& self.res(i).ancestors@ == self.scopes.anc(self.res(i).scope as int)
            &&& self.res(i).uri@ == UriSpec::Segments(self.recognizer.pat_at(i))
            &&& self.res(i).wf()
        }
        &&& forall|i: int| 0 <= i < self.n_res()
            ==> crate::uri::pattern_proper(#[trigger] self.pat(i))
        &&& match self.asterisk {
            Some(a) => a.uri@ == UriSpec::Asterisk && a.scope == 0 && a.wf(),
            None => true,
        }
    }

    /// The longest common prefix of the candidates' ancestor chains.
    pub open spec fn common_anc(self, cands: Seq<usize>) -> Seq<usize>
        decreases cands.len(),
    {
        if cands.len() == 0 {
            seq![]
        } else if cands.len() == 1 {
            self.res(cands[0] as int).ancestors@
        } else {
            let c = self.common_anc(cands.drop_last());
            c.take(lcp(c, self.res(cands.last() as int).ancestors@))
        }
    }

    /// The oldest scope of the chain whose prefix starts with the path.
    pub open spec fn first_prefix_scope(self, common: Seq<usize>, path: Seq<char>)
        -> Option<usize>
        decreases common.len(),
    {
        if common.len() == 0 {
            None
        } else if is_prefix_of(path, self.scopes.node(common[0] as int).prefix_text@) {
            Some(common[0])
        } else {
            self.first_prefix_scope(common.drop_first(), path)
        }
    }

    /// The scope that a not-found path is inferred to belong to: among the
    /// common ancestors of the candidates, the oldest whose prefix starts
    /// with the path, else the deepest; the root if there is no candidate.
    ///
    /// The oldest-first search is kept deliberately, as the serving
    /// heuristic has it; a deepest-first reading of the same rule would
    /// pick differently for deeply overlapping sibling scopes.
    pub open spec fn infer_scope_spec(self, path: Seq<char>, cands: Seq<usize>) -> int {
        if cands.len() == 0 {
            0
        } else {
            let c = self.common_anc(cands);
            match self.first_prefix_scope(c, path) {
                Some(s) => s as int,
                None => if c.len() == 0 {
                    0
                } else {
                    c.last() as int
                },
            }
        }
    }

    /// Every candidate's ancestor chain is a chain of valid scope indices
    /// starting at the root; so is every prefix the intersection keeps.
    proof fn lemma_common_anc_valid(self, cands: Seq<usize>)
        requires
            self.wf(),
            cands.len() > 0,
            forall|t: int| 0 <= t < cands.len() ==> (#[trigger] cands[t]) < self.n_res(),
        ensures
            self.common_anc(cands).len() >= 1,
            self.common_anc(cands)[0] == 0usize,
            forall|t: int| 0 <= t < self.common_anc(cands).len()
                ==> (#[trigger] self.common_anc(cands)[t]) < self.scopes.len_spec(),
        decreases cands.len(),
    {
        if cands.len() == 1 {
            let sc = self.res(cands[0] as int).scope as int;
            assert(self.scopes.anc(sc).len() >= 1);
            assert(self.scopes.anc(sc)[0] == 0usize);
            assert forall|t: int| 0 <= t < self.common_anc(cands).len()
                implies (#[trigger] self.common_anc(cands)[t]) < self.scopes.len_spec() by {
                assert(self.scopes.anc(sc)[t] as int <= sc);
            }
        } else {
            self.lemma_common_anc_valid(cands.drop_last());
            let c = self.common_anc(cands.drop_last());
            let a = self.res(cands.last() as int).ancestors@;
            let sc = self.res(cands.last() as int).scope as int;
            crate::strutil::lemma_lcp_bounds(c, a);
            crate::strutil::lemma_lcp_agree(c, a);
            assert(a.len() >= 1 && a[0] == 0usize) by {
                assert(self.scopes.anc(sc).len() >= 1);
            }
            if lcp(c, a) == 0 {
                crate::strutil::lemma_lcp_at_least(c, a, 1);
            }
            assert(self.common_anc(cands) =~= c.take(lcp(c, a)));
        }
    }

    /// Infers the owning scope of a path from the partially matched
    /// candidate resources.
    pub fn infer_scope(&self, path: &str, cands: &Vec<usize>) -> (r: usize)
        requires
            self.wf(),
            forall|t: int| 0 <= t < cands@.len() ==> (#[trigger] cands@[t]) < self.n_res(),
        ensures
            r == self.infer_scope_spec(path@, cands@),
            r < self.scopes.len_spec(),
    {
        if cands.len() == 0 {
            return 0;
        }
        proof {
            self.lemma_common_anc_valid(cands@);
        }

        // The longest common prefix of the candidates' ancestor chains.
        let first = cands[0];
        let mut common: Vec<usize> = take_prefix(
            &self.resources[first].ancestors,
            self.resources[first].ancestors.len(),
        );
        proof {
            assert(common@ =~= self.res(first as int).ancestors@);
            assert(common@ =~= self.common_anc(cands@.take(1)));
        }
        let mut k: usize = 1;
        while k < cands.len()
            invariant
                1 <= k <= cands@.len(),
                self.wf(),
                forall|t: int| 0 <= t < cands@.len() ==> (#[trigger] cands@[t]) < self.n_res(),
                common@ == self.common_anc(cands@.take(k as int)),
            decreases cands@.len() - k,
        {
            let ghost prev = common@;
            let c = cands[k];
            let l = lcp_usize(&common, &self.resources[c].ancestors);
            proof {
                crate::strutil::lemma_lcp_bounds(common@, self.res(c as int).ancestors@);
            }
            let next = take_prefix(&common, l);
            common = next;
            proof {
                let t = cands@.take(k as int + 1);
                assert(t.drop_last() =~= cands@.take(k as int));
                assert(t.last() == cands@[k as int]);
                assert(common@ =~= self.common_anc(t));
            }
            k = k + 1;
        }
        proof {
            assert(cands@.take(cands@.len() as int) =~= cands@);
            self.lemma_common_anc_valid(cands@);
        }

        // The oldest common ancestor whose prefix starts with the path,
        // else the deepest common ancestor.
        let mut t: usize = 0;
        proof {
            assert(common@.skip(0) =~= common@);
        }
        while t < common.len()
            invariant
                t <= common@.len(),
                common@.len() >= 1,
                self.wf(),
                common@ == self.common_anc(cands@),
                cands@.len() > 0,
                forall|u: int| 0 <= u < common@.len()
                    ==> (#[trigger] common@[u]) < self.scopes.len_spec(),
                self.first_prefix_scope(common@.skip(t as int), path@)
                    == self.first_prefix_scope(common@, path@),
            decreases common@.len() - t,
        {
            proof {
                assert(common@.skip(t as int)[0] == common@[t as int]);
                assert(common@.skip(t as int).drop_first() =~= common@.skip(t as int + 1));
            }
            let s = common[t];
            if str_starts_with(self.scopes.nodes[s].prefix_text.as_str(), path) {
                return s;
            }
            t = t + 1;
        }
        proof {
            assert(common@.skip(common@.len() as int) =~= Seq::<usize>::empty());
        }
        common[common.len() - 1]
    }

    /// Routes a request: pure and read-only on the frozen structure.
    ///
    /// The exact match, when there is one, is the preferred matching
    /// pattern; the method table of its resource then decides between
    /// `FoundEndpoint` and `FoundResource`.  An explicit registration
    /// always wins; only when `HEAD` is not registered and `fallback_head`
    /// is set does a `HEAD` request take the `GET` endpoint.  The asterisk
    /// target `*` is matched out of band.
    pub fn route(&self, path: &str, method: Method) -> (r: RouterResult)
        requires
            self.wf(),
        ensures
            self.route_ensures(path@, method, r),
    {
        proof {
            reveal_strlit("*");
            assert("*"@ =~= seq!['*']);
        }
        if crate::strutil::str_eq(path, "*") {
            match &self.asterisk {
                Some(a) => {
                    match a.recognize(&method) {
                        Some(e) => {
                            proof {
                                lemma_find_method_in(a.allowed_methods@, method);
                                let t = choose|t: int| 0 <= t < a.allowed_methods@.len()
                                    && (#[trigger] a.allowed_methods@[t]).0 == method
                                    && a.allowed_methods@[t].1
                                        == find_method(a.allowed_methods@, method)->Some_0;
                                assert(a.allowed_methods@[t].1 < a.endpoints@.len());
                            }
                            let caps = Captures { ranges: Vec::new() };
                            proof {
                                assert(caps@ =~= Seq::<(int, int)>::empty());
                            }
                            return RouterResult::FoundEndpoint {
                                resource: None,
                                endpoint: e,
                                endpoint_id: a.endpoints[e].id,
                                handler: a.endpoints[e].handler,
                                fallback_head: false,
                                captures: caps,
                            };
                        },
                        None => {
                            let caps = Captures { ranges: Vec::new() };
                            proof {
                                assert(caps@ =~= Seq::<(int, int)>::empty());
                            }
                            return RouterResult::FoundResource {
                                resource: None,
                                captures: caps,
                                scope: ScopeId::Global,
                            };
                        },
                    }
                },
                None => {
                    return RouterResult::NotFound {
                        resources: Vec::new(),
                        scope: ScopeId::Global,
                    };
                },
            }
        }
        match self.recognizer.recognize(path) {
            RecognizeResult::Matched(idx, captures) => {
                let resource = &self.resources[idx];
                proof {
                    assert(self.res(idx as int).wf());
                }
                match resource.recognize(&method) {
                    Some(e) => {
                        proof {
                            lemma_find_method_in(resource.allowed_methods@, method);
                            let t = choose|t: int| 0 <= t < resource.allowed_methods@.len()
                                && (#[trigger] resource.allowed_methods@[t]).0 == method
                                && resource.allowed_methods@[t].1
                                    == find_method(resource.allowed_methods@, method)->Some_0;
                            assert(resource.allowed_methods@[t].1 < resource.endpoints@.len());
                        }
                        RouterResult::FoundEndpoint {
                        resource: Some(idx),
                        endpoint: e,
                        endpoint_id: resource.endpoints[e].id,
                        handler: resource.endpoints[e].handler,
                        fallback_head: false,
                        captures,
                    } },
                    None => {
                        if matches!(method, Method::Head) && self.fallback_head {
                            match resource.recognize(&Method::Get) {
                                Some(e) => {
                                    proof {
                                        lemma_find_method_in(
                                            resource.allowed_methods@,
                                            Method::Get,
                                        );
                                        let t = choose|t: int|
                                            0 <= t < resource.allowed_methods@.len()
                                            && (#[trigger] resource.allowed_methods@[t]).0
                                                == Method::Get
                                            && resource.allowed_methods@[t].1
                                                == find_method(
                                                    resource.allowed_methods@,
                                                    Method::Get,
                                                )->Some_0;
                                        assert(resource.allowed_methods@[t].1
                                            < resource.endpoints@.len());
                                    }
                                    return RouterResult::FoundEndpoint {
                                        resource: Some(idx),
                                        endpoint: e,
                                        endpoint_id: resource.endpoints[e].id,
                                        handler: resource.endpoints[e].handler,
                                        fallback_head: true,
                                        captures,
                                    };
                                },
                                None => {},
                            }
                        }
                        RouterResult::FoundResource {
                            resource: Some(idx),
                            captures,
                            scope: ScopeId::from_index(resource.scope),
                        }
                    },
                }
            },
            RecognizeResult::PartiallyMatched(cands) => {
                let scope = self.infer_scope(path, &cands);
                RouterResult::NotFound {
                    resources: cands,
                    scope: ScopeId::from_index(scope),
                }
            },
            RecognizeResult::NotMatched => RouterResult::NotFound {
                resources: Vec::new(),
                scope: ScopeId::Global,
            },
        }
    }

    /// What `route` returns, case by case.
    pub open spec fn route_ensures(self, path: Seq<char>, method: Method, r: RouterResult)
        -> bool {
        if path == seq!['*'] {
            match r {
                RouterResult::FoundEndpoint {
                    resource, endpoint, endpoint_id, handler, fallback_head, captures,
                } => {
                    &&& self.asterisk is Some
                    &&& resource is None
                    &&& !fallback_head
                    &&& captures@ == Seq::<(int, int)>::empty()
                    &&& {
                        let a = self.asterisk->Some_0;
                        &&& find_method(a.allowed_methods@, method) == Some(endpoint)
                        &&& endpoint < a.endpoints@.len()
                        &&& endpoint_id == a.endpoints@[endpoint as int].id
                        &&& handler == a.endpoints@[endpoint as int].handler
                    }
                },
                RouterResult::FoundResource { resource, captures, scope } => {
                    &&& self.asterisk is Some
                    &&& resource is None
                    &&& find_method(self.asterisk->Some_0.allowed_methods@, method) is None
                    &&& captures@ == Seq::<(int, int)>::empty()
                    &&& scope == ScopeId::Global
                },
                RouterResult::NotFound { resources, scope } => {
                    &&& self.asterisk is None
                    &&& resources@ == Seq::<usize>::empty()
                    &&& scope == ScopeId::Global
                },
            }
        } else {
            match r {
                RouterResult::FoundEndpoint {
                    resource, endpoint, endpoint_id, handler, fallback_head, captures,
                } => {
                    &&& resource is Some
                    &&& {
                        let idx = resource->0 as int;
                        &&& 0 <= idx < self.n_res()
                        &&& uri_matches(self.pat(idx), path)
                        &&& captures@ == uri_captures(self.pat(idx), path)
                        &&& forall|m: int| 0 <= m < self.n_res() && m != idx
                            && uri_matches(#[trigger] self.pat(m), path)
                            ==> precedes(self.pat(idx), self.pat(m))
                        &&& endpoint < self.res(idx).endpoints@.len()
                        &&& endpoint_id == self.res(idx).endpoints@[endpoint as int].id
                        &&& handler == self.res(idx).endpoints@[endpoint as int].handler
                        &&& if !fallback_head {
                            find_method(self.res(idx).allowed_methods@, method)
                                == Some(endpoint)
                        } else {
                            &&& method == Method::Head
                            &&& self.fallback_head
                            &&& find_method(self.res(idx).allowed_methods@, Method::Head)
                                is None
                            &&& find_method(self.res(idx).allowed_methods@, Method::Get)
                                == Some(endpoint)
                        }
                    }
                },
                RouterResult::FoundResource { resource, captures, scope } => {
                    &&& resource is Some
                    &&& {
                        let idx = resource->0 as int;
                        &&& 0 <= idx < self.n_res()
                        &&& uri_matches(self.pat(idx), path)
                        &&& captures@ == uri_captures(self.pat(idx), path)
                        &&& forall|m: int| 0 <= m < self.n_res() && m != idx
                            && uri_matches(#[trigger] self.pat(m), path)
                            ==> precedes(self.pat(idx), self.pat(m))
                        &&& find_method(self.res(idx).allowed_methods@, method) is None
                        &&& (method == Method::Head && self.fallback_head
                            ==> find_method(self.res(idx).allowed_methods@, Method::Get)
                                is None)
                        &&& scope == ScopeId::from_index_spec(self.res(idx).scope as int)
                    }
                },
                RouterResult::NotFound { resources, scope } => {
                    &&& forall|m: int| 0 <= m < self.n_res()
                        ==> !uri_matches(#[trigger] self.pat(m), path)
                    &&& scope == ScopeId::from_index_spec(
                        self.infer_scope_spec(path, resources@),
                    )
                    &&& forall|t: int| 0 <= t < resources@.len()
                        ==> (#[trigger] resources@[t]) < self.n_res()
                    &&& if resources@.len() == 0 {
                        self.recognizer.share_max(path, self.n_res()) == 0
                            || path == seq!['*']
                    } else {
                        &&& self.recognizer.share_max(path, self.n_res()) >= 1
                        &&& forall|t: int| 0 <= t < resources@.len()
                            ==> lcp(self.recognizer.text_at(#[trigger] resources@[t] as int),
                                path) == self.recognizer.share_max(path, self.n_res())
                        &&& forall|m: int| 0 <= m < self.n_res()
                            && lcp(#[trigger] self.recognizer.text_at(m), path)
                                == self.recognizer.share_max(path, self.n_res())
                            ==> resources@.contains(m as usize)
                        &&& forall|a: int, b: int| 0 <= a < b < resources@.len()
                            ==> resources@[a] < resources@[b]
                    }
                },
            }
        }
    }
}

/// Resolving the rendered path of a registered literal pattern with a
/// method registered at its resource yields exactly the endpoint that the
/// resource maps that method to.
pub proof fn law_found_endpoint(app: AppData, idx: usize, method: Method, r: RouterResult)
    requires
        app.wf(),
        0 <= idx < app.n_res(),
        all_literal(app.pat(idx as int)),
        find_method(app.res(idx as int).allowed_methods@, method) is Some,
        app.route_ensures(render_path(app.pat(idx as int)), method, r),
    ensures
        r is FoundEndpoint,
        r->FoundEndpoint_resource == Some(idx),
        !r->FoundEndpoint_fallback_head,
        Some(r->FoundEndpoint_endpoint)
            == find_method(app.res(idx as int).allowed_methods@, method),
        r->FoundEndpoint_handler == app.res(idx as int).endpoints@[
            r->FoundEndpoint_endpoint as int].handler,
{
    let p = app.pat(idx as int);
    let path = render_path(p);
    lemma_literal_matches_render(p);
    crate::uri::lemma_render_starts_slash(p);
    assert(path != seq!['*']) by {
        assert(path[0] == '/');
    }
    match r {
        RouterResult::FoundEndpoint { resource, endpoint, fallback_head, .. } => {
            let i2 = resource->0;
            if i2 != idx {
                lemma_route_unique(app, idx, i2, path);
                assert(crate::recognizer::key_seq(app.pat(idx as int))
                    != crate::recognizer::key_seq(app.pat(i2 as int)));
            }
            if fallback_head {
                assert(find_method(app.res(idx as int).allowed_methods@, Method::Head)
                    is None);
                assert(method == Method::Head);
                assert(false);
            }
        },
        RouterResult::FoundResource { resource, .. } => {
            let i2 = resource->0;
            if i2 != idx {
                lemma_route_unique(app, idx, i2, path);
                assert(crate::recognizer::key_seq(app.pat(idx as int))
                    != crate::recognizer::key_seq(app.pat(i2 as int)));
            }
            assert(false);
        },
        RouterResult::NotFound { .. } => {
            assert(!uri_matches(app.pat(idx as int), path));
            assert(false);
        },
    }
}

/// A pattern preferred over a matching all-literal pattern at one path is
/// itself all-literal and structurally equal to it.
proof fn lemma_route_unique(app: AppData, idx: usize, other: usize, path: Seq<char>)
    requires
        app.wf(),
        0 <= idx < app.n_res(),
        0 <= other < app.n_res(),
        all_literal(app.pat(idx as int)),
        crate::uri::pattern_proper(app.pat(idx as int)),
        uri_matches(app.pat(idx as int), path),
        uri_matches(app.pat(other as int), path),
        precedes(app.pat(other as int), app.pat(idx as int)),
    ensures
        crate::recognizer::key_seq(app.pat(idx as int))
            == crate::recognizer::key_seq(app.pat(other as int)),
{
    let p = app.pat(idx as int);
    let q = app.pat(other as int);
    assert forall|k: int| 0 <= k < crate::recognizer::rank_seq(p).len()
        implies crate::recognizer::rank_seq(p)[k] == 0 by {
        assert(crate::recognizer::rank(p[k]) == 0);
    }
    assert forall|k: int| 0 <= k < crate::recognizer::rank_seq(q).len()
        implies crate::recognizer::rank_seq(q)[k] >= 0 by {
        assert(crate::recognizer::rank(q[k]) >= 0);
    }
    lemma_lex_lt_all_zero(crate::recognizer::rank_seq(q), crate::recognizer::rank_seq(p));
    assert(all_literal(q)) by {
        assert forall|k: int| 0 <= k < q.len() implies rank(#[trigger] q[k]) == 0 by {
            assert(crate::recognizer::rank_seq(q)[k] == 0);
        }
    }
    lemma_literal_matchers_equal(p, q, path, 0, 1);
    assert(crate::recognizer::key_seq(p) =~= crate::recognizer::key_seq(q));
}

/// Requesting a method that a matched resource does not register yields
/// `FoundResource` for that resource, whose precomputed `Allow` value
/// lists exactly the registered methods, in order, `OPTIONS` included.
pub proof fn law_method_not_allowed(
    app: AppData,
    idx: usize,
    path: Seq<char>,
    method: Method,
    r: RouterResult,
)
    requires
        app.wf(),
        0 <= idx < app.n_res(),
        path != seq!['*'],
        uri_matches(app.pat(idx as int), path),
        forall|m: int| 0 <= m < app.n_res() && m != idx
            && uri_matches(#[trigger] app.pat(m), path)
            ==> precedes(app.pat(idx as int), app.pat(m)),
        find_method(app.res(idx as int).allowed_methods@, method) is None,
        method == Method::Head && app.fallback_head
            ==> find_method(app.res(idx as int).allowed_methods@, Method::Get) is None,
        app.route_ensures(path, method, r),
    ensures
        r is FoundResource,
        r->FoundResource_resource == Some(idx),
        r->FoundResource_scope
            == ScopeId::from_index_spec(app.res(idx as int).scope as int),
        app.res(idx as int).allowed_methods_value@
            == allow_header(app.res(idx as int).method_keys()),
{
    match r {
        RouterResult::FoundEndpoint { resource, fallback_head, .. } => {
            let i2 = resource->0;
            if i2 != idx {
                assert(precedes(app.pat(idx as int), app.pat(i2 as int)));
                assert(precedes(app.pat(i2 as int), app.pat(idx as int)));
                crate::recognizer::lemma_lex_lt_trans(
                    crate::recognizer::rank_seq(app.pat(idx as int)),
                    crate::recognizer::rank_seq(app.pat(i2 as int)),
                    crate::recognizer::rank_seq(app.pat(idx as int)),
                );
                crate::recognizer::lemma_lex_lt_irrefl(
                    crate::recognizer::rank_seq(app.pat(idx as int)),
                );
            }
            assert(false);
        },
        RouterResult::FoundResource { resource, .. } => {
            let i2 = resource->0;
            if i2 != idx {
                assert(precedes(app.pat(idx as int), app.pat(i2 as int)));
                assert(precedes(app.pat(i2 as int), app.pat(idx as int)));
                crate::recognizer::lemma_lex_lt_trans(
                    crate::recognizer::rank_seq(app.pat(idx as int)),
                    crate::recognizer::rank_seq(app.pat(i2 as int)),
                    crate::recognizer::rank_seq(app.pat(idx as int)),
                );
                crate::recognizer::lemma_lex_lt_irrefl(
                    crate::recognizer::rank_seq(app.pat(idx as int)),
                );
            }
        },
        RouterResult::NotFound { .. } => {
            assert(!uri_matches(app.pat(idx as int), path));
            assert(false);
        },
    }
}

/// A path that shares no prefix with any registered pattern resolves to
/// `NotFound` with no candidates, owned by the root scope.
pub proof fn law_unrelated_not_found(
    app: AppData,
    path: Seq<char>,
    method: Method,
    r: RouterResult,
)
    requires
        app.wf(),
        path != seq!['*'],
        forall|i: int| 0 <= i < app.n_res()
            ==> lcp(#[trigger] app.recognizer.text_at(i), path) == 0,
        app.route_ensures(path, method, r),
    ensures
        r is NotFound,
        r->NotFound_resources@ == Seq::<usize>::empty(),
        r->NotFound_scope == ScopeId::Global,
{
    assert forall|m: int| 0 <= m < app.n_res()
        implies !uri_matches(#[trigger] app.pat(m), path) by {
        if uri_matches(app.pat(m), path) {
            crate::uri::lemma_render_starts_slash(app.pat(m));
            assert(app.recognizer.text_at(m) == render_path(app.pat(m)));
            assert(app.recognizer.text_at(m)[0] == '/' && path[0] == '/');
            crate::strutil::lemma_lcp_at_least(app.recognizer.text_at(m), path, 1);
        }
    }
    match r {
        RouterResult::FoundEndpoint { resource, .. } => {
            assert(false);
        },
        RouterResult::FoundResource { resource, .. } => {
            assert(false);
        },
        RouterResult::NotFound { resources, scope } => {
            if resources@.len() > 0 {
                assert(lcp(app.recognizer.text_at(resources@[0] as int), path)
                    == app.recognizer.share_max(path, app.n_res()));
                assert(app.recognizer.share_max(path, app.n_res()) >= 1);
                assert(false);
            }
            assert(resources@ =~= Seq::<usize>::empty());
            assert(app.infer_scope_spec(path, resources@) == 0);
        },
    }
}

/// The frozen HTTP application.
#[derive(Debug)]
pub struct App {
    pub data: AppData,
}

impl App {
    /// Builds an application from a configuration, rooted at `/`.
    pub fn configure(cfg: crate::scope::Builder) -> (r: Result<App, crate::scope::Error>)
        ensures
            r matches Ok(app) ==> app.data.wf()
                && app.data.fallback_head == cfg.fallback_head
                && app.data.scopes.len_spec() == 1 + crate::scope::n_enters(cfg.items@),
    {
        App::with_prefix("/", cfg)
    }

    /// Builds an application whose root scope carries the given prefix.
    /// A prefix that does not compile to a path fails the whole build; an
    /// instruction that fails aborts it, and no application is produced.
    pub fn with_prefix(prefix: &str, cfg: crate::scope::Builder)
        -> (r: Result<App, crate::scope::Error>)
        ensures
            r matches Ok(app) ==> app.data.wf()
                && app.data.fallback_head == cfg.fallback_head
                && app.data.scopes.len_spec() == 1 + crate::scope::n_enters(cfg.items@),
            spec_compile(prefix@) matches Err(e)
                ==> r == Err::<App, crate::scope::Error>(crate::scope::Error::Pattern(e)),
            spec_compile(prefix@) == Ok::<UriSpec, crate::uri::PatternError>(
                UriSpec::Asterisk,
            ) ==> r == Err::<App, crate::scope::Error>(crate::scope::Error::Pattern(
                crate::uri::PatternError::MalformedPattern,
            )),
    {
        let root = match crate::uri::compile(prefix) {
            Ok(Uri::Segments(v)) => {
                proof {
                    crate::uri::lemma_segments_from_proper(prefix@, 1);
                    assert(v@.map_values(|g: Segment| g@)
                        == crate::uri::segments_from(prefix@, 1));
                }
                v
            },
            Ok(Uri::Asterisk) => {
                return Err(crate::scope::Error::Pattern(
                    crate::uri::PatternError::MalformedPattern,
                ));
            },
            Err(e) => {
                return Err(crate::scope::Error::Pattern(e));
            },
        };
        let mut cx = crate::scope::Context::new(root);
        cx.app.fallback_head = cfg.fallback_head;
        match cfg.prefix_pattern {
            Some(p) => {
                match cx.set_prefix(p.as_str()) {
                    Ok(()) => {},
                    Err(e) => {
                        return Err(e);
                    },
                }
            },
            None => {},
        }
        match cx.run_items(cfg.items) {
            Ok(()) => {},
            Err(e) => {
                return Err(e);
            },
        }
        Ok(App { data: cx.app })
    }
}

/// A fresh application configuration.
pub fn app() -> (r: crate::scope::Builder)
    ensures
        r.items@ == Seq::<crate::scope::ScopeItem>::empty(),
        r.prefix_pattern is None,
        r.fallback_head,
{
    crate::scope::scope()
}

/// Two strictly ascending index lists with the same members are equal.
proof fn lemma_sorted_unique(a: Seq<usize>, b: Seq<usize>)
    requires
        forall|i: int, j: int| 0 <= i < j < a.len() ==> a[i] < a[j],
        forall|i: int, j: int| 0 <= i < j < b.len() ==> b[i] < b[j],
        forall|x: usize| a.contains(x) <==> b.contains(x),
    ensures
        a == b,
    decreases a.len(),
{
    if a.len() == 0 {
        if b.len() > 0 {
            assert(b.contains(b[0]));
            assert(a.contains(b[0]));
        }
        assert(a =~= b);
    } else if b.len() == 0 {
        assert(a.contains(a[0]));
        assert(b.contains(a[0]));
    } else {
        assert(a.contains(a[0]) && b.contains(b[0]));
        assert(b.contains(a[0]) && a.contains(b[0]));
        let j = choose|j: int| 0 <= j < b.len() && b[j] == a[0];
        let i = choose|i: int| 0 <= i < a.len() && a[i] == b[0];
        assert(b[0] <= b[j]);
        assert(a[0] <= a[i]);
        assert(a[0] == b[0]);
        assert forall|x: usize| a.drop_first().contains(x) <==> b.drop_first().contains(x) by {
            if a.drop_first().contains(x) {
                let t = choose|t: int| 0 <= t < a.drop_first().len()
                    && a.drop_first()[t] == x;
                assert(a[t + 1] == x);
                assert(a.contains(x));
                assert(b.contains(x));
                let u = choose|u: int| 0 <= u < b.len() && b[u] == x;
                assert(x > a[0]);
                assert(u != 0);
                assert(b.drop_first()[u - 1] == x);
                assert(b.drop_first().contains(x));
            }
            if b.drop_first().contains(x) {
                let t = choose|t: int| 0 <= t < b.drop_first().len()
                    && b.drop_first()[t] == x;
                assert(b[t + 1] == x);
                assert(b.contains(x));
                assert(a.contains(x));
                let u = choose|u: int| 0 <= u < a.len() && a[u] == x;
                assert(x > b[0]);
                assert(u != 0);
                assert(a.drop_first()[u - 1] == x);
                assert(a.drop_first().contains(x));
            }
        }
        assert forall|i2: int, j2: int| 0 <= i2 < j2 < a.drop_first().len()
            implies a.drop_first()[i2] < a.drop_first()[j2] by {
            assert(a[i2 + 1] < a[j2 + 1]);
        }
        assert forall|i2: int, j2: int| 0 <= i2 < j2 < b.drop_first().len()
            implies b.drop_first()[i2] < b.drop_first()[j2] by {
            assert(b[i2 + 1] < b[j2 + 1]);
        }
        lemma_sorted_unique(a.drop_first(), b.drop_first());
        assert(a =~= b) by {
            assert(forall|t: int| 1 <= t < a.len()
                ==> a[t] == a.drop_first()[t - 1] && #[trigger] b[t] == b.drop_first()[t - 1]);
        }
    }
}

/// Routing is a function of the frozen structure: any two results that
/// the resolution contract admits for one request agree, so two
/// applications built from one configuration resolve every path
/// identically.
pub proof fn law_route_deterministic(
    app: AppData,
    path: Seq<char>,
    method: Method,
    r1: RouterResult,
    r2: RouterResult,
)
    requires
        app.wf(),
        app.route_ensures(path, method, r1),
        app.route_ensures(path, method, r2),
    ensures
        match (r1, r2) {
            (
                RouterResult::FoundEndpoint {
                    resource: a1, endpoint: e1, endpoint_id: id1, handler: h1,
                    fallback_head: f1, captures: c1,
                },
                RouterResult::FoundEndpoint {
                    resource: a2, endpoint: e2, endpoint_id: id2, handler: h2,
                    fallback_head: f2, captures: c2,
                },
            ) => a1 == a2 && e1 == e2 && id1 == id2 && h1 == h2 && f1 == f2
                && c1@ == c2@,
            (
                RouterResult::FoundResource { resource: a1, captures: c1, scope: s1 },
                RouterResult::FoundResource { resource: a2, captures: c2, scope: s2 },
            ) => a1 == a2 && c1@ == c2@ && s1 == s2,
            (
                RouterResult::NotFound { resources: n1, scope: s1 },
                RouterResult::NotFound { resources: n2, scope: s2 },
            ) => n1@ == n2@ && s1 == s2,
            _ => false,
        },
{
    let same_kind = match (r1, r2) {
        (RouterResult::FoundEndpoint { .. }, RouterResult::FoundEndpoint { .. }) => true,
        (RouterResult::FoundResource { .. }, RouterResult::FoundResource { .. }) => true,
        (RouterResult::NotFound { .. }, RouterResult::NotFound { .. }) => true,
        _ => false,
    };
    if path == seq!['*'] {
        match (r1, r2) {
            (
                RouterResult::NotFound { resources: n1, .. },
                RouterResult::NotFound { resources: n2, .. },
            ) => {
                assert(n1@ =~= n2@);
            },
            _ => {},
        }
    } else {
        let i1 = match r1 {
            RouterResult::FoundEndpoint { resource, .. } => Some(resource->0),
            RouterResult::FoundResource { resource, .. } => Some(resource->0),
            RouterResult::NotFound { .. } => None,
        };
        let i2 = match r2 {
            RouterResult::FoundEndpoint { resource, .. } => Some(resource->0),
            RouterResult::FoundResource { resource, .. } => Some(resource->0),
            RouterResult::NotFound { .. } => None,
        };
        if i1 is Some && i2 is Some && i1->0 != i2->0 {
            let a = i1->0 as int;
            let b = i2->0 as int;
            assert(uri_matches(app.pat(a), path) && uri_matches(app.pat(b), path));
            assert(precedes(app.pat(a), app.pat(b)));
            assert(precedes(app.pat(b), app.pat(a)));
            crate::recognizer::lemma_lex_lt_trans(
                crate::recognizer::rank_seq(app.pat(a)),
                crate::recognizer::rank_seq(app.pat(b)),
                crate::recognizer::rank_seq(app.pat(a)),
            );
            crate::recognizer::lemma_lex_lt_irrefl(crate::recognizer::rank_seq(app.pat(a)));
        }
        if i1 is Some && i2 is None {
            let a = i1->0 as int;
            assert(uri_matches(app.pat(a), path));
            assert(!uri_matches(app.pat(a), path));
        }
        if i1 is None && i2 is Some {
            let b = i2->0 as int;
            assert(uri_matches(app.pat(b), path));
            assert(!uri_matches(app.pat(b), path));
        }
        match (r1, r2) {
            (
                RouterResult::NotFound { resources: n1, scope: s1 },
                RouterResult::NotFound { resources: n2, scope: s2 },
            ) => {
                let max = app.recognizer.share_max(path, app.n_res());
                if n1@.len() == 0 && n2@.len() > 0 {
                    assert(lcp(app.recognizer.text_at(n2@[0] as int), path) == max);
                    assert(max >= 1);
                }
                if n2@.len() == 0 && n1@.len() > 0 {
                    assert(lcp(app.recognizer.text_at(n1@[0] as int), path) == max);
                    assert(max >= 1);
                }
                if n1@.len() > 0 && n2@.len() > 0 {
                    assert forall|x: usize| n1@.contains(x) <==> n2@.contains(x) by {
                        if n1@.contains(x) {
                            let t = choose|t: int| 0 <= t < n1@.len() && n1@[t] == x;
                            assert(lcp(app.recognizer.text_at(x as int), path) == max);
                            assert(n2@.contains(x));
                        }
                        if n2@.contains(x) {
                            let t = choose|t: int| 0 <= t < n2@.len() && n2@[t] == x;
                            assert(lcp(app.recognizer.text_at(x as int), path) == max);
                            assert(n1@.contains(x));
                        }
                    }
                    lemma_sorted_unique(n1@, n2@);
                }
                assert(n1@ =~= n2@);
            },
            _ => {},
        }
    }
}

} // verus!
