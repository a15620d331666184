//! The route table and the decisions made for one request: static content,
//! a registered handler, or the fallback handler.
use vstd::prelude::*;
use crate::request::Request;
use crate::text::{append_chars, chars_of, contains, find, push_char};

verus! {

/// A response body: text, or raw bytes for content that is not valid UTF-8.
#[derive(Debug)]
pub enum DataType {
    Text(String),
    Bytes(Vec<u8>),
}

/// The handler of the first entry whose key is `k`, if any.
pub open spec fn lookup<H>(es: Seq<(Seq<char>, H)>, k: Seq<char>) -> Option<H>
    decreases es.len(),
{
    if es.len() == 0 {
        None
    } else if es[0].0 == k {
        Some(es[0].1)
    } else {
        lookup(es.skip(1), k)
    }
}

proof fn lemma_lookup_push<H>(es: Seq<(Seq<char>, H)>, k: Seq<char>, h: H, q: Seq<char>)
    requires
        lookup(es, k) is None,
    ensures
        lookup(es.push((k, h)), q) == if q == k { Some(h) } else { lookup(es, q) },
    decreases es.len(),
{
    if es.len() == 0 {
        assert(es.push((k, h)).skip(1) == es);
    } else {
        assert(es.push((k, h)).skip(1) == es.skip(1).push((k, h)));
        if es[0].0 != k {
            lemma_lookup_push(es.skip(1), k, h, q);
        }
    }
}

proof fn lemma_lookup_replace<H>(es: Seq<(Seq<char>, H)>, i: int, k: Seq<char>, h: H, q: Seq<char>)
    requires
        0 <= i < es.len(),
        es[i].0 == k,
        forall|j: int| 0 <= j < i ==> es[j].0 != k,
    ensures
        lookup(es.update(i, (k, h)), q) == if q == k { Some(h) } else { lookup(es, q) },
    decreases es.len(),
{
    if i == 0 {
        assert(es.update(i, (k, h)).skip(1) == es.skip(1));
    } else {
        assert(es.update(i, (k, h)).skip(1) == es.skip(1).update(i - 1, (k, h)));
        lemma_lookup_replace(es.skip(1), i - 1, k, h, q);
    }
}

proof fn lemma_lookup_absent<H>(es: Seq<(Seq<char>, H)>, k: Seq<char>)
    requires
        forall|j: int| 0 <= j < es.len() ==> es[j].0 != k,
    ensures
        lookup(es, k) is None,
    decreases es.len(),
{
    if es.len() > 0 {
        lemma_lookup_absent(es.skip(1), k);
    }
}

/// The reserved key of the fallback handler.
pub open spec fn fallback_key() -> Seq<char> {
    seq!['e', 'r', 'r']
}

/// The marker that sends a request to the static content.
pub open spec fn static_marker() -> Seq<char> {
    seq!['s', 't', 'a', 't', 'i', 'c']
}

/// What the table does with a request for `uri`.
pub enum Route<'a, H> {
    /// Serve the file at this path.
    Static(String),
    /// Call this handler.
    Handler(&'a H),
    /// Neither the uri nor the fallback key is registered.
    Missing,
}

/// A table from uri to handler. Registering a uri again replaces its handler.
pub struct Routes<H> {
    routes: Vec<(String, H)>,
}

impl<H> Routes<H> {
    /// The entries of the table, keys as characters, in order of registration.
    pub closed spec fn entries(&self) -> Seq<(Seq<char>, H)> {
        self.routes@.map_values(|e: (String, H)| (e.0@, e.1))
    }

    /// The handler registered under `k`, if any.
    pub open spec fn handler_for(&self, k: Seq<char>) -> Option<H> {
        lookup(self.entries(), k)
    }

    /// The handler that a request for `uri` is dispatched to when it is not
    /// static content: its own, else the fallback's.
    pub open spec fn resolve(&self, uri: Seq<char>) -> Option<H> {
        match self.handler_for(uri) {
            Some(h) => Some(h),
            None => self.handler_for(fallback_key()),
        }
    }

    /// An empty table.
    pub fn new() -> (r: Self)
        ensures
            forall|k: Seq<char>| r.handler_for(k) is None,
    {
        Routes { routes: Vec::new() }
    }

    /// Registers `content` under `route`, replacing any handler it had.
    pub fn add_route(&mut self, route: String, content: H)
        ensures
            forall|k: Seq<char>|
                #[trigger] final(self).handler_for(k) == if k == route@ {
                    Some(content)
                } else {
                    old(self).handler_for(k)
                },
    {
        let ghost es = self.entries();
        let ghost k = route@;
        let mut i: usize = 0;
        let mut found = false;
        while !found && i < self.routes.len()
            invariant
                es == self.entries(),
                i <= self.routes@.len(),
                forall|j: int| 0 <= j < i ==> es[j].0 != route@,
                found ==> i < self.routes@.len() && es[i as int].0 == route@,
            decreases self.routes.len() - i + (if found { 0int } else { 1int }),
        {
            if self.routes[i].0 == route {
                found = true;
            } else {
                i = i + 1;
            }
        }
        if found {
            self.routes[i] = (route, content);
            proof {
                assert(self.entries() == es.update(i as int, (k, content)));
                assert forall|q: Seq<char>|
                    #[trigger] self.handler_for(q) == if q == k {
                        Some(content)
                    } else {
                        lookup(es, q)
                    } by {
                    lemma_lookup_replace(es, i as int, k, content, q);
                }
            }
        } else {
            proof {
                lemma_lookup_absent(es, k);
            }
            self.routes.push((route, content));
            proof {
                assert(self.entries() == es.push((k, content)));
                assert forall|q: Seq<char>|
                    #[trigger] self.handler_for(q) == if q == k {
                        Some(content)
                    } else {
                        lookup(es, q)
                    } by {
                    lemma_lookup_push(es, k, content, q);
                }
            }
        }
    }

    /// What to do with `request`: serve `"." + uri` when the uri holds
    /// `"static"`; else call the uri's own handler, else the fallback's;
    /// `Missing` when neither is registered.
    pub fn get_route(&self, request: &Request) -> (r: Route<'_, H>)
        ensures
            contains(request.uri@, static_marker()) ==> (r matches Route::Static(p) && p@
                == seq!['.'] + request.uri@),
            !contains(request.uri@, static_marker()) ==> match self.resolve(request.uri@) {
                Some(h) => r matches Route::Handler(x) && *x == h,
                None => r is Missing,
            },
    {
        let uri = chars_of(request.uri.as_str());
        let marker = vec!['s', 't', 'a', 't', 'i', 'c'];
        if find(&uri, &marker).is_some() {
            let mut path = String::new();
            push_char(&mut path, '.');
            append_chars(&mut path, &uri);
            return Route::Static(path);
        }
        match self.get_handler(&request.uri) {
            Some(h) => Route::Handler(h),
            None => {
                let mut key = String::new();
                push_char(&mut key, 'e');
                push_char(&mut key, 'r');
                push_char(&mut key, 'r');
                assert(key@ =~= fallback_key());
                match self.get_handler(&key) {
                    Some(h) => Route::Handler(h),
                    None => Route::Missing,
                }
            },
        }
    }

    /// The handler registered under exactly `uri`, if any.
    pub fn get_handler(&self, uri: &String) -> (r: Option<&H>)
        ensures
            r is Some <==> self.handler_for(uri@) is Some,
            r matches Some(h) ==> self.handler_for(uri@) == Some(*h),
    {
        let ghost es = self.entries();
        assert(es.skip(0) == es);
        let mut i: usize = 0;
        while i < self.routes.len()
            invariant
                es == self.entries(),
                i <= self.routes@.len(),
                lookup(es, uri@) == lookup(es.skip(i as int), uri@),
            decreases self.routes.len() - i,
        {
            assert(es.skip(i as int)[0] == es[i as int]);
            if self.routes[i].0 == *uri {
                return Some(&self.routes[i].1);
            }
            assert(es.skip(i as int).skip(1) == es.skip(i + 1));
            i = i + 1;
        }
        None
    }
}

} // verus!
