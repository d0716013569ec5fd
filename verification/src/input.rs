//! The request-scoped state: the request's plain data, request-local
//! storage, the cookie jar, and captured path parameters.

use vstd::prelude::*;
use crate::method::Method;
use crate::recognizer::Captures;
use crate::strutil::str_eq;

verus! {

/// The first value stored for `tag`, if any.
pub open spec fn map_get(entries: Seq<(u64, Seq<char>)>, tag: u64) -> Option<Seq<char>>
    decreases entries.len(),
{
    if entries.len() == 0 {
        None
    } else if entries[0].0 == tag {
        Some(entries[0].1)
    } else {
        map_get(entries.drop_first(), tag)
    }
}

/// Request-local heterogeneous storage, modelled as a write-once mapping
/// from a type tag to a value.
#[derive(Debug)]
pub struct LocalMap {
    pub entries: Vec<(u64, String)>,
}

impl LocalMap {
    pub open spec fn model(self) -> Seq<(u64, Seq<char>)> {
        self.entries@.map_values(|e: (u64, String)| (e.0, e.1@))
    }

    /// An empty storage.
    pub fn new() -> (r: LocalMap)
        ensures
            r.model() == Seq::<(u64, Seq<char>)>::empty(),
    {
        let r = LocalMap { entries: Vec::new() };
        proof {
            assert(r.model() =~= Seq::<(u64, Seq<char>)>::empty());
        }
        r
    }

    /// The value stored under `tag`, if any.
    pub fn get(&self, tag: u64) -> (r: Option<&String>)
        ensures
            match r {
                Some(v) => map_get(self.model(), tag) == Some::<Seq<char>>(v@),
                None => map_get(self.model(), tag) is None,
            },
    {
        let ghost m = self.model();
        let mut k: usize = 0;
        proof {
            assert(m.skip(0) =~= m);
        }
        while k < self.entries.len()
            invariant
                k <= self.entries@.len(),
                m == self.model(),
                map_get(m.skip(k as int), tag) == map_get(m, tag),
            decreases self.entries@.len() - k,
        {
            proof {
                assert(m.skip(k as int)[0] == m[k as int]);
                assert(m.skip(k as int).drop_first() =~= m.skip(k as int + 1));
            }
            if self.entries[k].0 == tag {
                return Some(&self.entries[k].1);
            }
            k = k + 1;
        }
        proof {
            assert(m.skip(m.len() as int) =~= Seq::<(u64, Seq<char>)>::empty());
        }
        None
    }

    /// Whether a value is stored under `tag`.
    pub fn contains_key(&self, tag: u64) -> (r: bool)
        ensures
            r == (map_get(self.model(), tag) is Some),
    {
        match self.get(tag) {
            Some(_) => true,
            None => false,
        }
    }

    /// Stores `value` under `tag` unless the tag is taken; storage is
    /// write-once per tag.
    pub fn insert(&mut self, tag: u64, value: String) -> (r: bool)
        ensures
            r == (map_get(old(self).model(), tag) is None),
            r ==> final(self).model() == old(self).model().push((tag, value@)),
            !r ==> *final(self) == *old(self),
    {
        if self.contains_key(tag) {
            return false;
        }
        let ghost before = self.model();
        self.entries.push((tag, value));
        proof {
            assert(self.model() =~= before.push((tag, value@)));
        }
        true
    }

    /// Removes and returns the first value stored under `tag`.
    pub fn remove(&mut self, tag: u64) -> (r: Option<String>)
        ensures
            match r {
                Some(v) => exists|k: int| {
                    &&& 0 <= k < old(self).model().len()
                    &&& (#[trigger] old(self).model()[k]).0 == tag
                    &&& forall|t: int| 0 <= t < k
                        ==> (#[trigger] old(self).model()[t]).0 != tag
                    &&& v@ == old(self).model()[k].1
                    &&& final(self).model() == old(self).model().remove(k)
                },
                None => map_get(old(self).model(), tag) is None
                    && *final(self) == *old(self),
            },
    {
        let ghost m = self.model();
        let mut k: usize = 0;
        proof {
            assert(m.skip(0) =~= m);
        }
        while k < self.entries.len()
            invariant
                k <= self.entries@.len(),
                *self == *old(self),
                m == self.model(),
                map_get(m.skip(k as int), tag) == map_get(m, tag),
                forall|t: int| 0 <= t < k ==> (#[trigger] m[t]).0 != tag,
            decreases self.entries@.len() - k,
        {
            proof {
                assert(m.skip(k as int)[0] == m[k as int]);
                assert(m.skip(k as int).drop_first() =~= m.skip(k as int + 1));
            }
            if self.entries[k].0 == tag {
                let (_, v) = self.entries.remove(k);
                proof {
                    assert(self.model() =~= m.remove(k as int));
                }
                return Some(v);
            }
            k = k + 1;
        }
        proof {
            assert(m.skip(m.len() as int) =~= Seq::<(u64, Seq<char>)>::empty());
        }
        None
    }
}

/// A tag that some entry carries is present.
pub proof fn lemma_map_get_present(m: Seq<(u64, Seq<char>)>, k: int, tag: u64)
    requires
        0 <= k < m.len(),
        m[k].0 == tag,
    ensures
        map_get(m, tag) is Some,
    decreases k,
{
    if m[0].0 != tag {
        assert(m.drop_first()[k - 1].0 == tag);
        lemma_map_get_present(m.drop_first(), k - 1, tag);
    }
}

/// A tag that no entry carries is absent.
proof fn lemma_map_get_absent(m: Seq<(u64, Seq<char>)>, tag: u64)
    requires
        forall|t: int| 0 <= t < m.len() ==> (#[trigger] m[t]).0 != tag,
    ensures
        map_get(m, tag) is None,
    decreases m.len(),
{
    if m.len() > 0 {
        assert forall|t: int| 0 <= t < m.drop_first().len()
            implies (#[trigger] m.drop_first()[t]).0 != tag by {
            assert(m[t + 1].0 != tag);
        }
        lemma_map_get_absent(m.drop_first(), tag);
    }
}

#[verifier::external_type_specification]
#[verifier::external_body]
pub struct ExCookieJar(cookie::CookieJar);

/// The cookies a jar holds, by name.
pub uninterp spec fn jar_cookies(j: cookie::CookieJar) -> Map<Seq<char>, Seq<char>>;

/// The pending changes of a jar, already rendered as `Set-Cookie` values.
pub uninterp spec fn jar_delta_encoded(j: cookie::CookieJar) -> Seq<Seq<char>>;

/// The name and value that parsing one cookie pair yields, if it parses.
pub uninterp spec fn parsed_cookie(s: Seq<char>) -> Option<(Seq<char>, Seq<char>)>;

/// The `Set-Cookie` rendering of a plain cookie of that name and value.
pub uninterp spec fn cookie_render(name: Seq<char>, value: Seq<char>) -> Seq<char>;

/// Relies on cookie::CookieJar::get: the cookie of that name, if present.
#[verifier::external_body]
fn jar_get(j: &cookie::CookieJar, name: &str) -> (r: Option<String>)
    ensures
        match r {
            Some(v) => jar_cookies(*j).contains_key(name@)
                && jar_cookies(*j)[name@] == v@,
            None => !jar_cookies(*j).contains_key(name@),
        },
{
    j.get(name).map(|c| c.value().to_string())
}

/// Relies on cookie::CookieJar::add and cookie::Cookie::encoded: the
/// cookie is added, replacing any cookie of the same name, and its
/// rendering joins the pending changes.
#[verifier::external_body]
fn jar_add(j: &mut cookie::CookieJar, name: &str, value: &str)
    ensures
        jar_cookies(*final(j)) == jar_cookies(*old(j)).insert(name@, value@),
        jar_delta_encoded(*final(j)).contains(cookie_render(name@, value@)),
{
    j.add(cookie::Cookie::new(name.to_owned(), value.to_owned()));
}

/// Relies on cookie::CookieJar::remove: the cookie of that name leaves the
/// jar; a removal entry may join the delta.
#[verifier::external_body]
fn jar_remove(j: &mut cookie::CookieJar, name: &str)
    ensures
        jar_cookies(*final(j)) == jar_cookies(*old(j)).remove(name@),
{
    j.remove(cookie::Cookie::new(name.to_owned(), String::new()));
}

/// Relies on cookie::CookieJar::force_remove: the cookie of that name
/// leaves the jar without a delta entry.
#[verifier::external_body]
fn jar_force_remove(j: &mut cookie::CookieJar, name: &str)
    ensures
        jar_cookies(*final(j)) == jar_cookies(*old(j)).remove(name@),
{
    j.force_remove(name);
}

/// Relies on cookie::Cookie::parse and cookie::CookieJar::add_original:
/// a parsed pair seeds the jar without entering the delta.  A pending
/// change of the same name keeps precedence, so the seeded value is only
/// visible on a jar whose delta is empty.
#[verifier::external_body]
fn jar_add_original_parsed(j: &mut cookie::CookieJar, s: &str) -> (r: bool)
    ensures
        jar_delta_encoded(*final(j)) == jar_delta_encoded(*old(j)),
        match parsed_cookie(s@) {
            Some(nv) => r
                && (jar_delta_encoded(*old(j)) == Seq::<Seq<char>>::empty()
                    ==> jar_cookies(*final(j))
                        == jar_cookies(*old(j)).insert(nv.0, nv.1)),
            None => !r && jar_cookies(*final(j)) == jar_cookies(*old(j)),
        },
{
    match cookie::Cookie::parse(s.to_owned()) {
        Ok(c) => {
            j.add_original(c);
            true
        },
        Err(_) => false,
    }
}

/// Relies on cookie::CookieJar::delta and cookie::Cookie::encoded: the
/// pending changes, each rendered as one `Set-Cookie` value.
#[verifier::external_body]
fn jar_delta(j: &cookie::CookieJar) -> (r: Vec<String>)
    ensures
        r@.map_values(|s: String| s@) == jar_delta_encoded(*j),
{
    j.delta().map(|c| c.encoded().to_string()).collect()
}

/// The cookie jar of one request: seeded from the request's `Cookie`
/// headers, mutated by handlers, drained into `Set-Cookie` headers.
#[derive(Debug)]
pub struct Cookies {
    jar: cookie::CookieJar,
}

impl Cookies {
    /// The cookies currently in the jar, by name.
    pub closed spec fn cookies(self) -> Map<Seq<char>, Seq<char>> {
        jar_cookies(self.jar)
    }

    /// An empty jar.
    ///
    /// Relies on cookie::CookieJar::new: the fresh jar is empty and its
    /// delta holds nothing.
    #[verifier::external_body]
    pub(crate) fn new() -> (r: Cookies)
        ensures
            r.cookies().dom() == Set::<Seq<char>>::empty(),
            r.delta().len() == 0,
    {
        Cookies { jar: cookie::CookieJar::new() }
    }

    /// The pending changes of the jar, as rendered `Set-Cookie` values.
    pub closed spec fn delta(self) -> Seq<Seq<char>> {
        jar_delta_encoded(self.jar)
    }

    /// Seeds the jar with one `name=value` pair from a `Cookie` header.
    /// A pending change of the same name keeps precedence: the seeded
    /// value shows only while the delta is empty.
    pub fn add_original(&mut self, pair: &str) -> (r: bool)
        ensures
            final(self).delta() == old(self).delta(),
            match parsed_cookie(pair@) {
                Some(nv) => r && (old(self).delta() == Seq::<Seq<char>>::empty()
                    ==> final(self).cookies()
                        == old(self).cookies().insert(nv.0, nv.1)),
                None => !r && final(self).cookies() == old(self).cookies(),
            },
    {
        jar_add_original_parsed(&mut self.jar, pair)
    }

    /// The value of the cookie of that name, if present.
    pub fn get(&self, name: &str) -> (r: Option<String>)
        ensures
            match r {
                Some(v) => self.cookies().contains_key(name@)
                    && self.cookies()[name@] == v@,
                None => !self.cookies().contains_key(name@),
            },
    {
        jar_get(&self.jar, name)
    }

    /// Adds a cookie, replacing any cookie of the same name; its
    /// rendering joins the pending changes.
    pub fn add(&mut self, name: &str, value: &str)
        ensures
            final(self).cookies() == old(self).cookies().insert(name@, value@),
            final(self).delta().contains(cookie_render(name@, value@)),
    {
        jar_add(&mut self.jar, name, value);
    }

    /// Removes a cookie; clients are told to drop it.
    pub fn remove(&mut self, name: &str)
        ensures
            final(self).cookies() == old(self).cookies().remove(name@),
    {
        jar_remove(&mut self.jar, name);
    }

    /// Removes a cookie without telling clients.
    pub fn force_remove(&mut self, name: &str)
        ensures
            final(self).cookies() == old(self).cookies().remove(name@),
    {
        jar_force_remove(&mut self.jar, name);
    }

    /// The pending changes, each rendered as one `Set-Cookie` value.
    pub fn delta_headers(&self) -> (r: Vec<String>)
        ensures
            r@.map_values(|s: String| s@) == self.delta(),
    {
        jar_delta(&self.jar)
    }
}

/// The first value of the header of that name.
pub open spec fn header_value(
    headers: Seq<(Seq<char>, Seq<char>)>,
    name: Seq<char>,
) -> Option<Seq<char>>
    decreases headers.len(),
{
    if headers.len() == 0 {
        None
    } else if headers[0].0 == name {
        Some(headers[0].1)
    } else {
        header_value(headers.drop_first(), name)
    }
}

/// Looks a header up by exact name.
pub fn find_header<'a>(headers: &'a Vec<(String, String)>, name: &str) -> (r: Option<&'a String>)
    ensures
        match r {
            Some(v) => header_value(
                headers@.map_values(|h: (String, String)| (h.0@, h.1@)),
                name@,
            ) == Some::<Seq<char>>(v@),
            None => header_value(
                headers@.map_values(|h: (String, String)| (h.0@, h.1@)),
                name@,
            ) is None,
        },
{
    let ghost m = headers@.map_values(|h: (String, String)| (h.0@, h.1@));
    let mut k: usize = 0;
    proof {
        assert(m.skip(0) =~= m);
    }
    while k < headers.len()
        invariant
            k <= headers@.len(),
            m == headers@.map_values(|h: (String, String)| (h.0@, h.1@)),
            header_value(m.skip(k as int), name@) == header_value(m, name@),
        decreases headers@.len() - k,
    {
        proof {
            assert(m.skip(k as int)[0] == m[k as int]);
            assert(m.skip(k as int).drop_first() =~= m.skip(k as int + 1));
        }
        if str_eq(headers[k].0.as_str(), name) {
            return Some(&headers[k].1);
        }
        k = k + 1;
    }
    proof {
        assert(m.skip(m.len() as int) =~= Seq::<(Seq<char>, Seq<char>)>::empty());
    }
    None
}

/// Contextual information of one in-flight request: its plain data and
/// its exclusive, request-local mutable state.
#[derive(Debug)]
pub struct Input {
    pub method: Method,
    pub path: String,
    pub headers: Vec<(String, String)>,
    pub extensions: Vec<(u64, String)>,
    pub locals: LocalMap,
    pub cookies: Cookies,
    pub response_headers: Vec<(String, String)>,
}

impl Input {
    /// A fresh request context with an empty jar and empty local storage.
    pub fn new(method: Method, path: String, headers: Vec<(String, String)>) -> (r: Input)
        ensures
            r.method == method,
            r.path@ == path@,
            r.headers@ == headers@,
            r.extensions@ == Seq::<(u64, String)>::empty(),
            r.locals.model() == Seq::<(u64, Seq<char>)>::empty(),
            r.cookies.cookies() == Map::<Seq<char>, Seq<char>>::empty(),
            r.response_headers@ == Seq::<(String, String)>::empty(),
    {
        let cookies = Cookies::new();
        proof {
            assert(cookies.cookies() =~= Map::<Seq<char>, Seq<char>>::empty());
        }
        let r = Input {
            method,
            path,
            headers,
            extensions: Vec::new(),
            locals: LocalMap::new(),
            cookies,
            response_headers: Vec::new(),
        };
        proof {
            assert(r.extensions@ =~= Seq::<(u64, String)>::empty());
            assert(r.response_headers@ =~= Seq::<(String, String)>::empty());
        }
        r
    }

    /// The HTTP method of the request.
    pub fn method(&self) -> (r: &Method)
        ensures
            r == self.method,
    {
        &self.method
    }

    /// The path of the request target.
    pub fn uri(&self) -> (r: &String)
        ensures
            r@ == self.path@,
    {
        &self.path
    }

    /// The headers of the request.
    pub fn headers(&self) -> (r: &Vec<(String, String)>)
        ensures
            r@ == self.headers@,
    {
        &self.headers
    }

    /// The first value stored in the protocol extensions under `tag`.
    pub fn extensions(&self, tag: u64) -> (r: Option<&String>)
        ensures
            match r {
                Some(v) => map_get(
                    self.extensions@.map_values(|e: (u64, String)| (e.0, e.1@)),
                    tag,
                ) == Some::<Seq<char>>(v@),
                None => map_get(
                    self.extensions@.map_values(|e: (u64, String)| (e.0, e.1@)),
                    tag,
                ) is None,
            },
    {
        let ghost m = self.extensions@.map_values(|e: (u64, String)| (e.0, e.1@));
        let mut k: usize = 0;
        proof {
            assert(m.skip(0) =~= m);
        }
        while k < self.extensions.len()
            invariant
                k <= self.extensions@.len(),
                m == self.extensions@.map_values(|e: (u64, String)| (e.0, e.1@)),
                map_get(m.skip(k as int), tag) == map_get(m, tag),
            decreases self.extensions@.len() - k,
        {
            proof {
                assert(m.skip(k as int)[0] == m[k as int]);
                assert(m.skip(k as int).drop_first() =~= m.skip(k as int + 1));
            }
            if self.extensions[k].0 == tag {
                return Some(&self.extensions[k].1);
            }
            k = k + 1;
        }
        proof {
            assert(m.skip(m.len() as int) =~= Seq::<(u64, Seq<char>)>::empty());
        }
        None
    }
}

/// The position of the first capture of that name, if any.
pub open spec fn first_name_index(names: Seq<Seq<char>>, name: Seq<char>) -> Option<int>
    decreases names.len(),
{
    if names.len() == 0 {
        None
    } else if names[0] == name {
        Some(0)
    } else {
        match first_name_index(names.drop_first(), name) {
            Some(i) => Some(i + 1),
            None => None,
        }
    }
}

/// An earliest match is the first index.
proof fn lemma_first_name_index(names: Seq<Seq<char>>, name: Seq<char>, i: int)
    requires
        0 <= i < names.len(),
        names[i] == name,
        forall|t: int| 0 <= t < i ==> names[t] != name,
    ensures
        first_name_index(names, name) == Some(i),
    decreases i,
{
    if i > 0 {
        assert forall|t: int| 0 <= t < i - 1 implies names.drop_first()[t] != name by {
            assert(names[t + 1] != name);
        }
        assert(names.drop_first()[i - 1] == name);
        lemma_first_name_index(names.drop_first(), name, i - 1);
    }
}

/// A name no capture carries has no index.
proof fn lemma_first_name_index_absent(names: Seq<Seq<char>>, name: Seq<char>)
    requires
        forall|t: int| 0 <= t < names.len() ==> names[t] != name,
    ensures
        first_name_index(names, name) is None,
    decreases names.len(),
{
    if names.len() > 0 {
        assert forall|t: int| 0 <= t < names.drop_first().len()
            implies names.drop_first()[t] != name by {
            assert(names[t + 1] != name);
        }
        lemma_first_name_index_absent(names.drop_first(), name);
    }
}

/// The value captured under `name`, read back from the queried path.
///
/// `names` are the capture names of the matched resource and `caps` the
/// ranges that recognition extracted.  The value is the path slice of the
/// first capture of that name; a name that is absent, an index without a
/// range, or a range that does not fit the path yields nothing.
pub fn param_value(path: &str, names: &Vec<String>, caps: &Captures, name: &str)
    -> (r: Option<String>)
    ensures
        match first_name_index(names@.map_values(|n: String| n@), name@) {
            None => r is None,
            Some(i) => {
                if 0 <= i < caps@.len() && 0 <= caps@[i].0 <= caps@[i].1 <= path@.len() {
                    r matches Some(v) && v@ == path@.subrange(caps@[i].0, caps@[i].1)
                } else {
                    r is None
                }
            },
        },
{
    let ghost nm = names@.map_values(|n: String| n@);
    let mut i: usize = 0;
    while i < names.len()
        invariant
            i <= names@.len(),
            nm == names@.map_values(|n: String| n@),
            forall|t: int| 0 <= t < i ==> (#[trigger] nm[t]) != name@,
        decreases names@.len() - i,
    {
        if str_eq(names[i].as_str(), name) {
            proof {
                lemma_first_name_index(nm, name@, i as int);
            }
            if i < caps.ranges.len() {
                let (start, end) = caps.ranges[i];
                let len = path.unicode_len();
                if start <= end && end <= len {
                    let v = path.substring_char(start, end).to_owned();
                    proof {
                        assert(caps@[i as int] == (start as int, end as int));
                    }
                    return Some(v);
                }
                proof {
                    assert(caps@[i as int] == (caps.ranges@[i as int].0 as int,
                        caps.ranges@[i as int].1 as int));
                }
                return None;
            }
            return None;
        }
        i = i + 1;
    }
    proof {
        lemma_first_name_index_absent(nm, name@);
    }
    None
}

} // verus!
