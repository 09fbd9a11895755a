//! How the server answers requests with its engine.
use vstd::prelude::*;
use super::common::{GetResponse, RemoveResponse, Request, Response, SetResponse};
use super::engine::KvsEngine;
use super::error::{error_message, KvsError};

verus! {

/// What the engine's `get` of `key` may have done, by the engine's contract:
/// going from `before` to `after` with the result `r`.
pub open spec fn get_allowed<E: KvsEngine>(
    before: E,
    after: E,
    key: Seq<char>,
    r: Result<Option<String>, KvsError>,
) -> bool {
    &&& after.contents() == before.contents()
    &&& (before.in_memory() ==> r is Ok)
    &&& r matches Ok(v) ==> match v {
        Some(v) => before.contents().contains_key(key) && v@ == before.contents()[key],
        None => !before.contents().contains_key(key),
    }
}

/// What the engine's `set` of `key` to `value` may have done, by its
/// contract.
pub open spec fn set_allowed<E: KvsEngine>(
    before: E,
    after: E,
    key: Seq<char>,
    value: Seq<char>,
    r: Result<(), KvsError>,
) -> bool {
    &&& match r {
        Ok(()) => after.contents() == before.contents().insert(key, value),
        Err(_) => after.contents() == before.contents(),
    }
    &&& (before.in_memory() ==> r is Ok)
}

/// What the engine's `remove` of `key` may have done, by its contract.
pub open spec fn remove_allowed<E: KvsEngine>(
    before: E,
    after: E,
    key: Seq<char>,
    r: Result<(), KvsError>,
) -> bool {
    &&& match r {
        Ok(()) => before.contents().contains_key(key) && after.contents()
            == before.contents().remove(key),
        Err(e) => after.contents() == before.contents() && (e is KeyNotFound
            ==> !before.contents().contains_key(key)),
    }
    &&& (!before.contents().contains_key(key) ==> r is Err)
}

/// `resp` answers a read whose engine call gave `r`: the value, or the text
/// of the error.
pub open spec fn answers_get(r: Result<Option<String>, KvsError>, resp: Response) -> bool {
    match r {
        Ok(v) => resp == Response::Get(v),
        Err(e) => resp matches Response::Failed(m) && m@ == error_message(e),
    }
}

/// `resp` answers a write whose engine call gave `r`.
pub open spec fn answers_put(r: Result<(), KvsError>, resp: Response) -> bool {
    match r {
        Ok(()) => resp is Put,
        Err(e) => resp matches Response::Failed(m) && m@ == error_message(e),
    }
}

/// `resp` answers a removal whose engine call gave `r`.
pub open spec fn answers_remove(r: Result<(), KvsError>, resp: Response) -> bool {
    match r {
        Ok(()) => resp is Remove,
        Err(e) => resp matches Response::Failed(m) && m@ == error_message(e),
    }
}

/// `resp` answers a read, in the reply type of `Get` alone.
pub open spec fn found_get(r: Result<Option<String>, KvsError>, resp: GetResponse) -> bool {
    match r {
        Ok(v) => resp == GetResponse::Found(v),
        Err(e) => resp matches GetResponse::Failed(m) && m@ == error_message(e),
    }
}

/// `resp` answers a write, in the reply type of `Set` alone.
pub open spec fn done_set(r: Result<(), KvsError>, resp: SetResponse) -> bool {
    match r {
        Ok(()) => resp is Done,
        Err(e) => resp matches SetResponse::Failed(m) && m@ == error_message(e),
    }
}

/// `resp` answers a removal, in the reply type of `Remove` alone.
pub open spec fn done_remove(r: Result<(), KvsError>, resp: RemoveResponse) -> bool {
    match r {
        Ok(()) => resp is Done,
        Err(e) => resp matches RemoveResponse::Failed(m) && m@ == error_message(e),
    }
}

/// The response to a read whose engine call gave `r`.
pub fn answer_get(r: Result<Option<String>, KvsError>) -> (resp: Response)
    ensures
        answers_get(r, resp),
{
    match r {
        Ok(v) => Response::Get(v),
        Err(e) => Response::Failed(e.message()),
    }
}

/// The response to a write whose engine call gave `r`.
pub fn answer_put(r: Result<(), KvsError>) -> (resp: Response)
    ensures
        answers_put(r, resp),
{
    match r {
        Ok(()) => Response::Put,
        Err(e) => Response::Failed(e.message()),
    }
}

/// The response to a removal whose engine call gave `r`.
pub fn answer_remove(r: Result<(), KvsError>) -> (resp: Response)
    ensures
        answers_remove(r, resp),
{
    match r {
        Ok(()) => Response::Remove,
        Err(e) => Response::Failed(e.message()),
    }
}

/// The server of the key/value store.
pub struct KvsServer<E: KvsEngine> {
    engine: E,
}

impl<E: KvsEngine> KvsServer<E> {
    /// The engine the server answers from.
    pub closed spec fn spec_engine(&self) -> E {
        self.engine
    }

    /// A server with the given storage engine.
    pub fn new(engine: E) -> (server: Self)
        ensures
            server.spec_engine() == engine,
    {
        KvsServer { engine }
    }

    /// Answers a `Get`: the value the engine read, or the text of the error
    /// it returned.
    pub fn handle_get(&mut self, key: String) -> (resp: GetResponse)
        ensures
            exists|r: Result<Option<String>, KvsError>|
                get_allowed(old(self).spec_engine(), final(self).spec_engine(), key@, r)
                    && #[trigger] found_get(r, resp),
            old(self).spec_engine().in_memory() ==> !(resp is Failed),
    {
        let ghost k = key@;
        let r = self.engine.get(key);
        let resp = match r {
            Ok(value) => GetResponse::Found(value),
            Err(e) => GetResponse::Failed(e.message()),
        };
        assert(get_allowed(old(self).spec_engine(), self.spec_engine(), k, r) && found_get(r, resp));
        resp
    }

    /// Answers a `Set`: done, or the text of the engine's error.
    pub fn handle_set(&mut self, key: String, value: String) -> (resp: SetResponse)
        ensures
            exists|r: Result<(), KvsError>|
                set_allowed(old(self).spec_engine(), final(self).spec_engine(), key@, value@, r)
                    && #[trigger] done_set(r, resp),
            old(self).spec_engine().in_memory() ==> !(resp is Failed),
    {
        let ghost k = key@;
        let ghost v = value@;
        let r = self.engine.set(key, value);
        let resp = match r {
            Ok(_) => SetResponse::Done,
            Err(e) => SetResponse::Failed(e.message()),
        };
        assert(set_allowed(old(self).spec_engine(), self.spec_engine(), k, v, r) && done_set(r, resp));
        resp
    }

    /// Answers a `Remove`: done, or the text of the engine's error; removing
    /// a missing key is answered with an error.
    pub fn handle_remove(&mut self, key: String) -> (resp: RemoveResponse)
        ensures
            exists|r: Result<(), KvsError>|
                remove_allowed(old(self).spec_engine(), final(self).spec_engine(), key@, r)
                    && #[trigger] done_remove(r, resp),
    {
        let ghost k = key@;
        let r = self.engine.remove(key);
        let resp = match r {
            Ok(_) => RemoveResponse::Done,
            Err(e) => RemoveResponse::Failed(e.message()),
        };
        assert(remove_allowed(old(self).spec_engine(), self.spec_engine(), k, r) && done_remove(r, resp));
        resp
    }

    /// Answers any request with the single response type of the protocol:
    /// the engine is asked once, and its result is turned into the response
    /// of the request's kind, or into the text of its error.
    pub fn respond(&mut self, req: Request) -> (resp: Response)
        ensures
            match req {
                Request::Get { key } => exists|r: Result<Option<String>, KvsError>|
                    get_allowed(old(self).spec_engine(), final(self).spec_engine(), key@, r)
                        && #[trigger] answers_get(r, resp),
                Request::Put { key, value } => exists|r: Result<(), KvsError>|
                    set_allowed(old(self).spec_engine(), final(self).spec_engine(), key@, value@, r)
                        && #[trigger] answers_put(r, resp),
                Request::Remove { key } => exists|r: Result<(), KvsError>|
                    remove_allowed(old(self).spec_engine(), final(self).spec_engine(), key@, r)
                        && #[trigger] answers_remove(r, resp),
            },
            old(self).spec_engine().in_memory() ==> (req is Remove || !(resp is Failed)),
    {
        match req {
            Request::Get { key } => {
                let ghost k = key@;
                let r = self.engine.get(key);
                let resp = answer_get(r);
                assert(get_allowed(old(self).spec_engine(), self.spec_engine(), k, r));
                resp
            },
            Request::Put { key, value } => {
                let ghost k = key@;
                let ghost v = value@;
                let r = self.engine.set(key, value);
                let resp = answer_put(r);
                assert(set_allowed(old(self).spec_engine(), self.spec_engine(), k, v, r));
                resp
            },
            Request::Remove { key } => {
                let ghost k = key@;
                let r = self.engine.remove(key);
                let resp = answer_remove(r);
                assert(remove_allowed(old(self).spec_engine(), self.spec_engine(), k, r));
                resp
            },
        }
    }
}

} // verus!
