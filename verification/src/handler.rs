//! Method sets of endpoints and the `Allow` header they render to.

use vstd::prelude::*;
use crate::method::Method;

verus! {

/// The comma-joined names of the methods, in order.
pub open spec fn join_allow(ms: Seq<Method>) -> Seq<char>
    decreases ms.len(),
{
    if ms.len() == 0 {
        seq![]
    } else if ms.len() == 1 {
        ms[0].name_spec()
    } else {
        join_allow(ms.drop_last()) + seq![',', ' '] + ms.last().name_spec()
    }
}

/// The list with `OPTIONS` appended where it is missing.
pub open spec fn with_options(ms: Seq<Method>) -> Seq<Method> {
    if ms.contains(Method::Options) {
        ms
    } else {
        ms.push(Method::Options)
    }
}

/// The value of the `Allow` header for a set of registered methods: the
/// methods in registration order, `OPTIONS` included.
pub open spec fn allow_header(ms: Seq<Method>) -> Seq<char> {
    join_allow(with_options(ms))
}

/// The list with duplicates dropped, first occurrences kept in order.
pub open spec fn dedup_methods(ms: Seq<Method>) -> Seq<Method>
    decreases ms.len(),
{
    if ms.len() == 0 {
        seq![]
    } else {
        let d = dedup_methods(ms.drop_last());
        if d.contains(ms.last()) {
            d
        } else {
            d.push(ms.last())
        }
    }
}

/// Whether a method list contains `m`.
pub fn methods_contain(v: &Vec<Method>, m: Method) -> (r: bool)
    ensures
        r == v@.contains(m),
{
    let mut k: usize = 0;
    while k < v.len()
        invariant
            k <= v.len(),
            forall|t: int| 0 <= t < k ==> v@[t] != m,
        decreases v.len() - k,
    {
        if v[k] == m {
            return true;
        }
        k = k + 1;
    }
    false
}

/// Joins method names with `, `.
pub fn join_methods(v: &Vec<Method>) -> (r: String)
    ensures
        r@ == join_allow(v@),
{
    let mut r = String::new();
    let mut k: usize = 0;
    proof {
        assert(v@.take(0) =~= Seq::<Method>::empty());
        assert(r@ =~= join_allow(v@.take(0)));
    }
    while k < v.len()
        invariant
            k <= v.len(),
            r@ == join_allow(v@.take(k as int)),
        decreases v.len() - k,
    {
        if k > 0 {
            r.append(", ");
            proof {
                reveal_strlit(", ");
                assert(", "@ =~= seq![',', ' ']);
            }
        }
        let m = v[k];
        r.append(m.as_str());
        proof {
            let t = v@.take(k as int + 1);
            assert(t.drop_last() =~= v@.take(k as int));
            assert(t.last() == v@[k as int]);
            if k == 0 {
                assert(r@ =~= join_allow(t));
            } else {
                assert(r@ =~= join_allow(t));
            }
        }
        k = k + 1;
    }
    proof {
        assert(v@.take(v@.len() as int) =~= v@);
    }
    r
}

/// Renders the `Allow` header for the given methods: the methods in order,
/// `OPTIONS` appended where missing.
pub fn render_allow_header(v: &Vec<Method>) -> (r: String)
    ensures
        r@ == allow_header(v@),
{
    let mut all: Vec<Method> = Vec::new();
    let mut k: usize = 0;
    while k < v.len()
        invariant
            k <= v.len(),
            all@ =~= v@.take(k as int),
        decreases v.len() - k,
    {
        all.push(v[k]);
        proof {
            assert(all@ =~= v@.take(k as int + 1));
        }
        k = k + 1;
    }
    proof {
        assert(all@ =~= v@);
    }
    if !methods_contain(&all, Method::Options) {
        all.push(Method::Options);
    }
    let r = join_methods(&all);
    proof {
        assert(all@ =~= with_options(v@));
    }
    r
}

/// Drops duplicate methods, first occurrences kept in order.
pub fn dedup_method_list(list: &Vec<Method>) -> (r: Vec<Method>)
    ensures
        r@ == dedup_methods(list@),
{
    let mut methods: Vec<Method> = Vec::new();
    let mut k: usize = 0;
    proof {
        assert(list@.take(0) =~= Seq::<Method>::empty());
        assert(methods@ =~= dedup_methods(list@.take(0)));
    }
    while k < list.len()
        invariant
            k <= list.len(),
            methods@ == dedup_methods(list@.take(k as int)),
        decreases list.len() - k,
    {
        let ghost t = list@.take(k as int + 1);
        proof {
            assert(t.drop_last() =~= list@.take(k as int));
            assert(t.last() == list@[k as int]);
        }
        if !methods_contain(&methods, list[k]) {
            methods.push(list[k]);
        }
        k = k + 1;
    }
    proof {
        assert(list@.take(list@.len() as int) =~= list@);
    }
    methods
}

/// The set of request methods that a route accepts, in registration order,
/// duplicates dropped.
#[derive(Clone, Debug)]
pub struct AllowedMethods {
    methods: Vec<Method>,
}

impl View for AllowedMethods {
    type V = Seq<Method>;

    closed spec fn view(&self) -> Seq<Method> {
        self.methods@
    }
}

impl AllowedMethods {
    /// The default method set of a route: `GET` alone.
    pub fn get() -> (r: AllowedMethods)
        ensures
            r@ == seq![Method::Get],
    {
        let mut methods: Vec<Method> = Vec::new();
        methods.push(Method::Get);
        let r = AllowedMethods { methods };
        proof {
            assert(r@ =~= seq![Method::Get]);
        }
        r
    }

    /// A set holding one method.
    pub fn from_method(m: Method) -> (r: AllowedMethods)
        ensures
            r@ == seq![m],
    {
        let mut methods: Vec<Method> = Vec::new();
        methods.push(m);
        let r = AllowedMethods { methods };
        proof {
            assert(r@ =~= seq![m]);
        }
        r
    }

    /// The set of the given methods, duplicates dropped, order kept.
    pub fn from_methods(list: Vec<Method>) -> (r: AllowedMethods)
        ensures
            r@ == dedup_methods(list@),
    {
        AllowedMethods { methods: dedup_method_list(&list) }
    }

    /// Whether the set holds `m`.
    pub fn contains(&self, m: &Method) -> (r: bool)
        ensures
            r == self@.contains(*m),
    {
        methods_contain(&self.methods, *m)
    }

    /// The methods of the set, in order.
    pub fn methods(&self) -> (r: &Vec<Method>)
        ensures
            r@ == self@,
    {
        &self.methods
    }

    /// The comma-joined names of the methods, in order.
    pub fn to_header_value(&self) -> (r: String)
        ensures
            r@ == join_allow(self@),
    {
        join_methods(&self.methods)
    }

    /// Parses a comma-separated method list, surrounding spaces of each
    /// piece dropped, duplicates dropped.
    pub fn try_from(s: &str) -> (r: Result<AllowedMethods, MethodParseError>)
        ensures
            match parse_method_list(s@, 0) {
                Some(ms) => r matches Ok(am) && am@ == dedup_methods(ms),
                None => r == Err::<AllowedMethods, MethodParseError>(
                    MethodParseError::UnknownMethod,
                ),
            },
    {
        let len = s.unicode_len();
        let mut methods: Vec<Method> = Vec::new();
        let mut i: usize = 0;
        let mut done = false;
        while !done
            invariant
                0 <= i <= len,
                len == s@.len(),
                !done ==> match parse_method_list(s@, i as int) {
                    Some(rest) => parse_method_list(s@, 0)
                        == Some::<Seq<Method>>(methods@ + rest),
                    None => parse_method_list(s@, 0) is None,
                },
                done ==> parse_method_list(s@, 0) == Some::<Seq<Method>>(methods@),
            decreases len - i + (if done { 0int } else { 1int }),
        {
            let j = find_comma(s, i);
            proof {
                lemma_comma_end(s@, i as int);
            }
            let m = match parse_piece(s, i, j) {
                Some(m) => m,
                None => {
                    return Err(MethodParseError::UnknownMethod);
                },
            };
            let ghost before = methods@;
            methods.push(m);
            if j >= len {
                done = true;
                proof {
                    assert(parse_method_list(s@, i as int) == Some::<Seq<Method>>(seq![m]));
                    assert(before + seq![m] =~= methods@);
                }
            } else {
                i = j + 1;
                proof {
                    let rest = parse_method_list(s@, i as int);
                    if rest is Some {
                        assert(before + (seq![m] + rest->Some_0)
                            =~= methods@ + rest->Some_0);
                    }
                }
            }
        }
        Ok(AllowedMethods::from_methods(methods))
    }
}

/// A failure to parse a method list.
#[derive(Clone, Copy, Debug, PartialEq, Eq, Structural)]
pub enum MethodParseError {
    /// A piece of the list does not name a method.
    UnknownMethod,
}

/// The first `,` at or after `i`, or the length if there is none.
pub open spec fn comma_end(s: Seq<char>, i: int) -> int
    decreases s.len() - i,
{
    if i < 0 || i >= s.len() {
        s.len() as int
    } else if s[i] == ',' {
        i
    } else {
        comma_end(s, i + 1)
    }
}

proof fn lemma_comma_end(s: Seq<char>, i: int)
    requires
        0 <= i <= s.len(),
    ensures
        i <= comma_end(s, i) <= s.len(),
        forall|k: int| i <= k < comma_end(s, i) ==> s[k] != ',',
        comma_end(s, i) < s.len() ==> s[comma_end(s, i)] == ',',
    decreases s.len() - i,
{
    if i < s.len() && s[i] != ',' {
        lemma_comma_end(s, i + 1);
    }
}

/// The text with its leading spaces dropped.
pub open spec fn trim_front(t: Seq<char>) -> Seq<char>
    decreases t.len(),
{
    if t.len() > 0 && t[0] == ' ' {
        trim_front(t.drop_first())
    } else {
        t
    }
}

/// The text with its trailing spaces dropped.
pub open spec fn trim_back(t: Seq<char>) -> Seq<char>
    decreases t.len(),
{
    if t.len() > 0 && t.last() == ' ' {
        trim_back(t.drop_last())
    } else {
        t
    }
}

/// The text with surrounding spaces dropped.
pub open spec fn trim_spaces(t: Seq<char>) -> Seq<char> {
    trim_back(trim_front(t))
}

/// The methods a comma-separated list names, each piece taken with its
/// surrounding spaces dropped; a piece that names no method spoils the
/// whole list.
pub open spec fn parse_method_list(s: Seq<char>, i: int) -> Option<Seq<Method>>
    decreases s.len() - i,
    via parse_method_list_decreases
{
    let j = comma_end(s, i);
    match Method::from_name_spec(trim_spaces(s.subrange(i, j))) {
        None => None,
        Some(m) => if j >= s.len() {
            Some(seq![m])
        } else {
            match parse_method_list(s, j + 1) {
                None => None,
                Some(rest) => Some(seq![m] + rest),
            }
        },
    }
}

#[via_fn]
proof fn parse_method_list_decreases(s: Seq<char>, i: int) {
    if 0 <= i <= s.len() {
        lemma_comma_end(s, i);
    }
}

/// Parses one piece: the method its space-trimmed text names.
fn parse_piece(s: &str, i: usize, j: usize) -> (r: Option<Method>)
    requires
        i <= j <= s@.len(),
    ensures
        r == Method::from_name_spec(trim_spaces(s@.subrange(i as int, j as int))),
{
    let ghost piece = s@.subrange(i as int, j as int);
    let mut a = i;
    while a < j && s.get_char(a) == ' '
        invariant
            i <= a <= j <= s@.len(),
            piece == s@.subrange(i as int, j as int),
            trim_front(piece) == trim_front(s@.subrange(a as int, j as int)),
        decreases j - a,
    {
        proof {
            assert(s@.subrange(a as int, j as int)[0] == s@[a as int]);
            assert(s@.subrange(a as int, j as int).drop_first()
                =~= s@.subrange(a as int + 1, j as int));
        }
        a = a + 1;
    }
    proof {
        assert(trim_front(piece) == s@.subrange(a as int, j as int)) by {
            if a < j {
                assert(s@.subrange(a as int, j as int)[0] == s@[a as int]);
            } else {
                assert(s@.subrange(a as int, j as int).len() == 0);
            }
        }
    }
    let mut b = j;
    while b > a && s.get_char(b - 1) == ' '
        invariant
            i <= a <= b <= j <= s@.len(),
            trim_front(piece) == s@.subrange(a as int, j as int),
            trim_back(s@.subrange(a as int, j as int))
                == trim_back(s@.subrange(a as int, b as int)),
        decreases b,
    {
        proof {
            assert(s@.subrange(a as int, b as int).last() == s@[b as int - 1]);
            assert(s@.subrange(a as int, b as int).drop_last()
                =~= s@.subrange(a as int, b as int - 1));
        }
        b = b - 1;
    }
    proof {
        assert(trim_spaces(piece) == s@.subrange(a as int, b as int)) by {
            if b > a {
                assert(s@.subrange(a as int, b as int).last() == s@[b as int - 1]);
            } else {
                assert(s@.subrange(a as int, b as int).len() == 0);
            }
        }
    }
    let text = s.substring_char(a, b);
    Method::from_name(text)
}

/// The first `,` in `s` at or after `i`, or the length if there is none.
fn find_comma(s: &str, i: usize) -> (r: usize)
    requires
        i <= s@.len(),
    ensures
        r == comma_end(s@, i as int),
        i <= r <= s@.len(),
{
    proof {
        lemma_comma_end(s@, i as int);
    }
    let len = s.unicode_len();
    let mut j = i;
    while j < len
        invariant
            i <= j <= len,
            len == s@.len(),
            forall|k: int| i <= k < j ==> s@[k] != ',',
        decreases len - j,
    {
        if s.get_char(j) == ',' {
            assert(j == comma_end(s@, i as int)) by {
                lemma_comma_end(s@, i as int);
                if comma_end(s@, i as int) > j {
                    assert(s@[j as int] != ',');
                }
            }
            return j;
        }
        j = j + 1;
    }
    proof {
        lemma_comma_end(s@, i as int);
        if comma_end(s@, i as int) < len {
            assert(s@[comma_end(s@, i as int)] == ',');
        }
    }
    j
}

/// The handler interface the router consumes: a handler names the
/// methods it answers, and hands out the continuation that serves one
/// request.  The router treats the continuation as opaque; the driver
/// maps its token to the code that runs.
pub trait Handler: Sized {
    /// The method set the handler declares.
    spec fn methods_spec(&self) -> Option<AllowedMethods>;

    /// The continuation token the handler declares.
    spec fn token_spec(&self) -> usize;

    /// The methods this handler accepts; none means every method.
    fn allowed_methods(&self) -> (r: Option<&AllowedMethods>)
        ensures
            match r {
                Some(m) => self.methods_spec() == Some(*m),
                None => self.methods_spec() is None,
            },
    ;

    /// The token of the continuation that handles one request.
    fn handle(&self) -> (r: usize)
        ensures
            r == self.token_spec(),
    ;
}

/// A handler described by its data: an optional method set and the token
/// of its continuation.
#[derive(Debug)]
pub struct TokenHandler {
    pub methods: Option<AllowedMethods>,
    pub token: usize,
}

impl Handler for TokenHandler {
    open spec fn methods_spec(&self) -> Option<AllowedMethods> {
        self.methods
    }

    open spec fn token_spec(&self) -> usize {
        self.token
    }

    fn allowed_methods(&self) -> (r: Option<&AllowedMethods>) {
        match &self.methods {
            Some(m) => Some(m),
            None => None,
        }
    }

    fn handle(&self) -> (r: usize) {
        self.token
    }
}

/// Builds a handler from its method set and continuation token.
pub fn handler(methods: Option<AllowedMethods>, token: usize) -> (r: TokenHandler)
    ensures
        r.methods == methods,
        r.token == token,
{
    TokenHandler { methods, token }
}

} // verus!
