//! Session state: a request-scoped view onto a string-keyed store that a
//! backend loads before and saves after the request.

use vstd::prelude::*;
use crate::input::Input;
use crate::lifecycle::HandlerError;
use crate::strutil::str_eq;

verus! {

/// The tag under which the session state is stowed in the request-local
/// storage.
pub const SESSION_KEY: u64 = 101;

/// The backing state of one session: untouched and empty, loaded entries,
/// or marked for clearing.
#[derive(Debug)]
pub enum SessionInner {
    Empty,
    Entries(Vec<(String, String)>),
    Clear,
}

/// The first value stored under `name`.
pub open spec fn entry_get(entries: Seq<(Seq<char>, Seq<char>)>, name: Seq<char>)
    -> Option<Seq<char>>
    decreases entries.len(),
{
    if entries.len() == 0 {
        None
    } else if entries[0].0 == name {
        Some(entries[0].1)
    } else {
        entry_get(entries.drop_first(), name)
    }
}

/// The entries with every field of that name dropped, order kept.
pub open spec fn entries_without(
    m: Seq<(Seq<char>, Seq<char>)>,
    name: Seq<char>,
) -> Seq<(Seq<char>, Seq<char>)>
    decreases m.len(),
{
    if m.len() == 0 {
        seq![]
    } else {
        let rest = entries_without(m.drop_last(), name);
        if m.last().0 == name {
            rest
        } else {
            rest.push(m.last())
        }
    }
}

/// An interface onto the session values of one request.
#[derive(Debug)]
pub struct Session {
    pub inner: SessionInner,
}

impl Session {
    /// The model of the session: the visible entries; a cleared or empty
    /// session shows none.
    pub open spec fn model(self) -> Seq<(Seq<char>, Seq<char>)> {
        match self.inner {
            SessionInner::Entries(v) => v@.map_values(
                |e: (String, String)| (e.0@, e.1@),
            ),
            _ => Seq::<(Seq<char>, Seq<char>)>::empty(),
        }
    }

    /// A session over loaded entries.
    pub fn new(inner: SessionInner) -> (r: Session)
        ensures
            r.inner == inner,
    {
        Session { inner }
    }

    /// The raw value of the field `name`, if the session holds it.
    pub fn get(&self, name: &str) -> (r: Option<&String>)
        ensures
            match r {
                Some(v) => entry_get(self.model(), name@) == Some::<Seq<char>>(v@),
                None => entry_get(self.model(), name@) is None,
            },
    {
        let entries = match &self.inner {
            SessionInner::Entries(v) => v,
            _ => {
                proof {
                    assert(self.model() =~= Seq::<(Seq<char>, Seq<char>)>::empty());
                }
                return None;
            },
        };
        let ghost m = self.model();
        let mut k: usize = 0;
        proof {
            assert(m.skip(0) =~= m);
        }
        while k < entries.len()
            invariant
                k <= entries@.len(),
                m == entries@.map_values(|e: (String, String)| (e.0@, e.1@)),
                entry_get(m.skip(k as int), name@) == entry_get(m, name@),
                self.inner matches SessionInner::Entries(v) && v == entries,
            decreases entries@.len() - k,
        {
            proof {
                assert(m.skip(k as int)[0] == m[k as int]);
                assert(m.skip(k as int).drop_first() =~= m.skip(k as int + 1));
            }
            if str_eq(entries[k].0.as_str(), name) {
                return Some(&entries[k].1);
            }
            k = k + 1;
        }
        proof {
            assert(m.skip(m.len() as int) =~= Seq::<(Seq<char>, Seq<char>)>::empty());
        }
        None
    }

    /// Whether the session holds a field of that name.
    pub fn contains(&self, name: &str) -> (r: bool)
        ensures
            r == (entry_get(self.model(), name@) is Some),
    {
        match self.get(name) {
            Some(_) => true,
            None => false,
        }
    }

    /// Sets the field `name` to the given raw value.  An untouched session
    /// starts its entries with that one field; a session with entries
    /// shadows the name with the new value and keeps every other field; a
    /// cleared session stays cleared and ignores the write.
    pub fn set(&mut self, name: &str, value: String)
        ensures
            match old(self).inner {
                SessionInner::Clear => *final(self) == *old(self),
                SessionInner::Empty => final(self).model() == seq![(name@, value@)],
                SessionInner::Entries(_) => final(self).model()
                    == seq![(name@, value@)] + old(self).model(),
            },
            !(old(self).inner is Clear)
                ==> entry_get(final(self).model(), name@) == Some::<Seq<char>>(value@),
            forall|n2: Seq<char>| n2 != name@
                ==> entry_get(final(self).model(), n2)
                    == entry_get(old(self).model(), n2),
    {
        let mut inner = SessionInner::Empty;
        core::mem::swap(&mut inner, &mut self.inner);
        match inner {
            SessionInner::Empty => {
                let mut v: Vec<(String, String)> = Vec::new();
                v.push((String::from_str(name), value));
                self.inner = SessionInner::Entries(v);
                proof {
                    assert(self.model() =~= Seq::<(Seq<char>, Seq<char>)>::empty().push(
                        (name@, value@),
                    ));
                    assert(self.model() =~= seq![(name@, value@)]);
                    assert forall|n2: Seq<char>| n2 != name@
                        implies entry_get(self.model(), n2)
                            == entry_get(old(self).model(), n2) by {
                        assert(self.model().drop_first()
                            =~= Seq::<(Seq<char>, Seq<char>)>::empty());
                    }
                }
            },
            SessionInner::Entries(mut v) => {
                let ghost before = v@.map_values(|e: (String, String)| (e.0@, e.1@));
                v.insert(0, (String::from_str(name), value));
                self.inner = SessionInner::Entries(v);
                proof {
                    assert(self.model() =~= seq![(name@, value@)] + before);
                    assert(self.model()[0] == (name@, value@));
                    assert forall|n2: Seq<char>| n2 != name@
                        implies entry_get(self.model(), n2)
                            == entry_get(old(self).model(), n2) by {
                        assert(self.model().drop_first() =~= before);
                    }
                }
            },
            SessionInner::Clear => {
                self.inner = SessionInner::Clear;
            },
        }
    }

    /// Removes the field `name` from the session: every entry of that
    /// name is dropped and every other entry kept in order; an untouched
    /// or cleared session is left as it stands.
    pub fn remove(&mut self, name: &str)
        ensures
            match old(self).inner {
                SessionInner::Entries(_) => final(self).inner is Entries
                    && final(self).model() == entries_without(old(self).model(), name@),
                _ => *final(self) == *old(self),
            },
            entry_get(final(self).model(), name@) is None,
    {
        let mut inner = SessionInner::Empty;
        core::mem::swap(&mut inner, &mut self.inner);
        match inner {
            SessionInner::Entries(mut v) => {
                let ghost m = v@.map_values(|e: (String, String)| (e.0@, e.1@));
                let mut out: Vec<(String, String)> = Vec::new();
                let total = v.len();
                let mut k: usize = 0;
                proof {
                    assert(m.take(0) =~= Seq::<(Seq<char>, Seq<char>)>::empty());
                    assert(out@.map_values(|e: (String, String)| (e.0@, e.1@))
                        =~= entries_without(m.take(0), name@));
                }
                while k < total
                    invariant
                        k <= total,
                        total == m.len(),
                        v@.map_values(|e: (String, String)| (e.0@, e.1@))
                            == m.skip(k as int),
                        out@.map_values(|e: (String, String)| (e.0@, e.1@))
                            == entries_without(m.take(k as int), name@),
                        forall|t: int| 0 <= t < out@.len()
                            ==> (#[trigger] out@[t]).0@ != name@,
                    decreases total - k,
                {
                    proof {
                        assert(v@.map_values(|e: (String, String)| (e.0@, e.1@)).len()
                            == m.skip(k as int).len());
                        assert(m.skip(k as int).len() == m.len() - k);
                    }
                    let ghost before = out@.map_values(|e: (String, String)| (e.0@, e.1@));
                    let e = v.remove(0);
                    proof {
                        assert((e.0@, e.1@) == m.skip(k as int)[0]);
                        assert(m.skip(k as int)[0] == m[k as int]);
                        assert(v@.map_values(|x: (String, String)| (x.0@, x.1@))
                            =~= m.skip(k as int).skip(1));
                        assert(m.skip(k as int).skip(1) =~= m.skip(k as int + 1));
                        assert(m.take(k as int + 1).drop_last() =~= m.take(k as int));
                        assert(m.take(k as int + 1).last() == m[k as int]);
                    }
                    if !str_eq(e.0.as_str(), name) {
                        out.push(e);
                        proof {
                            assert(out@.map_values(|x: (String, String)| (x.0@, x.1@))
                                =~= before.push(m[k as int]));
                        }
                    }
                    k = k + 1;
                }
                proof {
                    assert(m.take(total as int) =~= m);
                }
                self.inner = SessionInner::Entries(out);
                proof {
                    let fm = self.model();
                    assert forall|t: int| 0 <= t < fm.len()
                        implies (#[trigger] fm[t]).0 != name@ by {
                        assert(fm[t].0 == out@[t].0@);
                    }
                    lemma_entry_get_absent(fm, name@);
                }
            },
            other => {
                self.inner = other;
                proof {
                    assert(self.model() =~= old(self).model());
                    assert(self.model() =~= Seq::<(Seq<char>, Seq<char>)>::empty());
                }
            },
        }
    }

    /// Marks the session cleared: the backend drops the stored state.
    pub fn clear(&mut self)
        ensures
            final(self).inner is Clear,
            final(self).model() == Seq::<(Seq<char>, Seq<char>)>::empty(),
    {
        self.inner = SessionInner::Clear;
        proof {
            assert(self.model() =~= Seq::<(Seq<char>, Seq<char>)>::empty());
        }
    }
}

/// A name that no entry carries is absent.
proof fn lemma_entry_get_absent(m: Seq<(Seq<char>, Seq<char>)>, name: Seq<char>)
    requires
        forall|t: int| 0 <= t < m.len() ==> (#[trigger] m[t]).0 != name,
    ensures
        entry_get(m, name) is None,
    decreases m.len(),
{
    if m.len() > 0 {
        assert forall|t: int| 0 <= t < m.drop_first().len()
            implies (#[trigger] m.drop_first()[t]).0 != name by {
            assert(m[t + 1].0 != name);
        }
        lemma_entry_get_absent(m.drop_first(), name);
    }
}

/// Hands the request its session, provided a backend stowed one: the
/// session is available exactly when the session tag is present in the
/// request-local storage.
pub fn extractor(input: &Input) -> (r: Result<Session, HandlerError>)
    ensures
        match r {
            Ok(_) => crate::input::map_get(input.locals.model(), SESSION_KEY) is Some,
            Err(e) => crate::input::map_get(input.locals.model(), SESSION_KEY) is None
                && e.status == 500,
        },
{
    if input.locals.contains_key(SESSION_KEY) {
        Ok(Session { inner: SessionInner::Empty })
    } else {
        Err(HandlerError {
            status: 500,
            message: String::from_str("The session is not available at the current scope."),
        })
    }
}

} // verus!
