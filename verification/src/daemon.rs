//! Daemon core: the work one connection earns, without its socket.
//! A connection hands over the bytes it read; the core decodes the
//! request frame, dispatches to the store, and returns the encoded
//! response frame.  A buffer that does not carry a decodable request
//! earns a `FailToDes` response; no exchange is left without a response.

use crate::codec::{
    MAX_PAYLOAD, ReqMemMsg, ReqModel, ResMemMsg, ResModel, frame_complete, frame_payload, framed,
    lemma_encode_utf8_len_bound, req_payload, res_fits, res_payload,
};
use crate::store::{EntryModel, MemDB, spec_store, tick_next};
use vstd::prelude::*;
use vstd::utf8::*;
use vstd::string::*;

verus! {

/// The text confirming a store.
pub open spec fn saved_msg() -> Seq<char> {
    "Key:Val saved in mem"@
}

/// The text reporting an absent key.
pub open spec fn not_found_msg() -> Seq<char> {
    "key not found"@
}

/// The text reporting an undecodable request.
pub open spec fn fail_msg() -> Seq<char> {
    "not of acceptable request message format"@
}

/// The store mapping after one request is dispatched at tick `t`.
pub open spec fn spec_dispatch_map(
    m: Map<Seq<char>, EntryModel>,
    t: u64,
    req: ReqModel,
) -> Map<Seq<char>, EntryModel> {
    match req {
        ReqModel::StoreKeyVal(k, v) => spec_store(m, k, v, t),
        ReqModel::FetchKey(_) => m,
    }
}

/// The clock after one request is dispatched: a store advances it.
pub open spec fn spec_dispatch_tick(t: u64, req: ReqModel) -> u64 {
    match req {
        ReqModel::StoreKeyVal(_, _) => tick_next(t),
        ReqModel::FetchKey(_) => t,
    }
}

/// The response one request earns against the store mapping it found.
pub open spec fn spec_response(m: Map<Seq<char>, EntryModel>, req: ReqModel) -> ResModel {
    match req {
        ReqModel::StoreKeyVal(_, _) => ResModel::KeySaved(saved_msg()),
        ReqModel::FetchKey(k) => if m.contains_key(k) {
            ResModel::KeyValue(m[k].value)
        } else {
            ResModel::KeyNotFound(not_found_msg())
        },
    }
}

/// Dispatch one decoded request: a store request upserts and earns
/// `KeySaved`; a fetch earns the key's value, or `KeyNotFound` when the
/// key is absent.  The store is only touched by a store request.
pub fn dispatch(db: &mut MemDB, req: ReqMemMsg) -> (resp: ResMemMsg)
    ensures
        final(db)@ == spec_dispatch_map(old(db)@, old(db).tick(), req@),
        final(db).tick() == spec_dispatch_tick(old(db).tick(), req@),
        resp@ == spec_response(old(db)@, req@),
{
    match req {
        ReqMemMsg::StoreKeyVal(k, v) => {
            db.store(k, v);
            ResMemMsg::KeySaved("Key:Val saved in mem".to_owned())
        },
        ReqMemMsg::FetchKey(k) => {
            match db.fetch(k) {
                Some(v) => ResMemMsg::KeyValue(String::from_str(v.as_str())),
                None => ResMemMsg::KeyNotFound("key not found".to_owned()),
            }
        },
    }
}

/// What one connection's exchange does to the daemon.  When the bytes
/// read carry a complete frame whose payload encodes a request, that
/// request is dispatched and its response sent; otherwise nothing is
/// stored and a `FailToDes` response is sent.  Either way exactly one
/// response frame goes back.
pub open spec fn daemon_step(
    db0: Map<Seq<char>, EntryModel>,
    t0: u64,
    buf: Seq<u8>,
    db1: Map<Seq<char>, EntryModel>,
    t1: u64,
    resp: Seq<u8>,
) -> bool {
    if exists|req: ReqModel| frame_complete(buf) && frame_payload(buf) == #[trigger] req_payload(
        req,
    ) {
        let req = choose|req: ReqModel|
            frame_complete(buf) && frame_payload(buf) == #[trigger] req_payload(req);
        db1 == spec_dispatch_map(db0, t0, req) && t1 == spec_dispatch_tick(t0, req) && resp
            == framed(res_payload(spec_response(db0, req)))
    } else {
        db1 == db0 && t1 == t0 && resp == framed(res_payload(ResModel::FailToDes(fail_msg())))
    }
}

/// The daemon's state between connections: the store it owns.  Every
/// value in the store arrived inside a request frame, so every response
/// carrying one fits a frame in turn.
pub struct DaemonCore {
    db: MemDB,
}

impl View for DaemonCore {
    type V = Map<Seq<char>, EntryModel>;

    closed spec fn view(&self) -> Map<Seq<char>, EntryModel> {
        self.db@
    }
}

impl DaemonCore {
    /// The store clock's current tick.
    pub closed spec fn tick(&self) -> u64 {
        self.db.tick()
    }

    #[verifier::type_invariant]
    spec fn inv(self) -> bool {
        forall|k: Seq<char>| #[trigger] self.db@.contains_key(k) ==> encode_utf8(
            self.db@[k].value,
        ).len() + 3 <= MAX_PAYLOAD as int
    }

    /// A daemon with an empty store.
    pub fn new() -> (r: DaemonCore)
        ensures
            r@ == Map::<Seq<char>, EntryModel>::empty(),
            r.tick() == 0,
    {
        DaemonCore { db: MemDB::new() }
    }

    /// Serve one connection: decode the bytes read from it, dispatch,
    /// and return the one response frame to write back.
    pub fn handle_frame(&mut self, buffer: &[u8]) -> (resp: Vec<u8>)
        ensures
            daemon_step(
                old(self)@,
                old(self).tick(),
                buffer@,
                final(self)@,
                final(self).tick(),
                resp@,
            ),
    {
        proof {
            use_type_invariant(&*self);
        }
        let ghost db0 = self.db@;
        let ghost t0 = self.db.tick();
        let mut db = MemDB::new();
        std::mem::swap(&mut db, &mut self.db);
        let dec = ReqMemMsg::decode(buffer);
        let res: ResMemMsg = match dec {
            Ok(req) => {
                let ghost reqv = req@;
                let r = dispatch(&mut db, req);
                proof {
                    assert forall|k2: Seq<char>| #[trigger] db@.contains_key(k2) implies
                        encode_utf8(db@[k2].value).len() + 3 <= MAX_PAYLOAD as int by {
                        match reqv {
                            ReqModel::StoreKeyVal(k, v) => {
                                if k2 != k {
                                    assert(db0.contains_key(k2));
                                }
                            },
                            ReqModel::FetchKey(_) => {},
                        }
                    }
                    match reqv {
                        ReqModel::StoreKeyVal(_, _) => {
                            reveal_strlit("Key:Val saved in mem");
                            lemma_encode_utf8_len_bound(saved_msg());
                        },
                        ReqModel::FetchKey(_) => {
                            reveal_strlit("key not found");
                            lemma_encode_utf8_len_bound(not_found_msg());
                        },
                    }
                    assert(res_fits(r@));
                }
                r
            },
            Err(_) => {
                let r = ResMemMsg::FailToDes(
                    "not of acceptable request message format".to_owned(),
                );
                proof {
                    reveal_strlit("not of acceptable request message format");
                    lemma_encode_utf8_len_bound(fail_msg());
                    assert(res_fits(r@));
                }
                r
            },
        };
        std::mem::swap(&mut db, &mut self.db);
        proof {
            if exists|rq: ReqModel|
                frame_complete(buffer@) && frame_payload(buffer@) == #[trigger] req_payload(rq) {
                let rq = choose|rq: ReqModel|
                    frame_complete(buffer@) && frame_payload(buffer@) == #[trigger] req_payload(
                        rq,
                    );
                assert(dec matches Ok(d) && d@ == rq);
            }
        }
        match res.encode() {
            Ok(f) => f,
            Err(_) => {
                proof {
                    assert(false);
                }
                Vec::new()
            },
        }
    }
}

} // verus!
