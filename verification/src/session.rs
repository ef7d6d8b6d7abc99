//! The session itself: a per-request identity with key-value state,
//! recovered from the request's cookie value or minted fresh, mutated in
//! memory, and serialized into a cookie for write-back at end of scope.

use vstd::prelude::*;
use vstd::string::StringExecFns;

use crate::codec::{
    lemma_parse_payload_id_len, lemma_payload_round_trip, pairs_view, parse_payload, payload_parse,
    payload_string, payload_text, uuid_text,
};

verus! {

/// An opaque 128-bit session identifier, held as its 16 bytes.
#[derive(Debug, PartialEq, Eq)]
pub struct SessionId {
    bytes: Vec<u8>,
}

impl View for SessionId {
    type V = Seq<u8>;

    closed spec fn view(&self) -> Seq<u8> {
        self.bytes@
    }
}

impl SessionId {
    /// An identifier is well formed when it holds exactly 16 bytes.
    pub open spec fn wf(&self) -> bool {
        self@.len() == 16
    }

    /// Relies on `uuid::Uuid::new_v4`: a random version-4 identifier of
    /// 16 bytes, whose byte 6 carries the version nibble 4.
    #[verifier::external_body]
    fn random_bytes() -> (r: Vec<u8>)
        ensures
            r@.len() == 16,
            (r@[6] as int) / 16 == 4,
    {
        uuid::Uuid::new_v4().as_bytes().to_vec()
    }

    /// Mints a fresh random identifier.
    pub fn fresh() -> (r: SessionId)
        ensures
            r.wf(),
    {
        SessionId { bytes: Self::random_bytes() }
    }

    /// An identifier from its 16 bytes; `None` on any other length.
    pub fn from_bytes(bytes: Vec<u8>) -> (r: Option<SessionId>)
        ensures
            match r {
                Some(id) => id.wf() && id@ == bytes@ && bytes@.len() == 16,
                None => bytes@.len() != 16,
            },
    {
        if bytes.len() == 16 {
            Some(SessionId { bytes })
        } else {
            None
        }
    }

    /// The identifier's bytes.
    pub fn bytes(&self) -> (r: &Vec<u8>)
        ensures
            r@ == self@,
    {
        &self.bytes
    }

    /// Whether two identifiers name the same session.
    pub fn same(&self, other: &SessionId) -> (r: bool)
        ensures
            r == (self@ == other@),
    {
        if self.bytes.len() != other.bytes.len() {
            return false;
        }
        let n = self.bytes.len();
        let mut i: usize = 0;
        while i < n
            invariant
                i <= n,
                n == self.bytes.len(),
                n == other.bytes.len(),
                forall|k: int| 0 <= k < i ==> self.bytes@[k] == other.bytes@[k],
            decreases n - i,
        {
            if self.bytes[i] != other.bytes[i] {
                return false;
            }
            i += 1;
        }
        proof {
            assert(self@ =~= other@);
        }
        true
    }

    /// The canonical text form: five hyphen-joined hexadecimal groups.
    pub fn canonical_text(&self) -> (r: String)
        requires
            self.wf(),
        ensures
            r@ == uuid_text(self@),
    {
        let mut out: Vec<char> = Vec::new();
        crate::codec::uuid_append(&mut out, &self.bytes);
        proof {
            assert(out@ =~= uuid_text(self@));
        }
        crate::text::chars_string(&out)
    }
}

/// The state mapping described by an entry list: later entries win.
pub open spec fn pairs_map(ps: Seq<(Seq<char>, Seq<char>)>) -> Map<Seq<char>, Seq<char>>
    decreases ps.len(),
{
    if ps.len() == 0 {
        Map::empty()
    } else {
        pairs_map(ps.drop_last()).insert(ps.last().0, ps.last().1)
    }
}

/// No two entries share a key.
pub open spec fn keys_unique(es: Seq<(String, String)>) -> bool {
    forall|i: int, j: int| #![auto] 0 <= i < j < es.len() ==> es[i].0@ != es[j].0@
}

/// Every entry of a list without repeated keys is found in its mapping.
proof fn lemma_pairs_map_get(ps: Seq<(Seq<char>, Seq<char>)>, i: int)
    requires
        0 <= i < ps.len(),
        forall|a: int, b: int| #![auto] 0 <= a < b < ps.len() ==> ps[a].0 != ps[b].0,
    ensures
        pairs_map(ps).contains_key(ps[i].0),
        pairs_map(ps)[ps[i].0] == ps[i].1,
    decreases ps.len(),
{
    if i < ps.len() - 1 {
        let pd = ps.drop_last();
        lemma_pairs_map_get(pd, i);
        assert(ps[i].0 != ps.last().0);
    }
}

/// A key in no entry of a list is not in its mapping.
proof fn lemma_pairs_map_absent(ps: Seq<(Seq<char>, Seq<char>)>, k: Seq<char>)
    requires
        forall|j: int| 0 <= j < ps.len() ==> ps[j].0 != k,
    ensures
        !pairs_map(ps).contains_key(k),
    decreases ps.len(),
{
    if ps.len() > 0 {
        lemma_pairs_map_absent(ps.drop_last(), k);
    }
}

/// Overwriting the value of one entry updates exactly that key in the
/// mapping, when no two entries share a key.
proof fn lemma_pairs_map_update(ps: Seq<(Seq<char>, Seq<char>)>, i: int, w: Seq<char>)
    requires
        0 <= i < ps.len(),
        forall|a: int, b: int| #![auto] 0 <= a < b < ps.len() ==> ps[a].0 != ps[b].0,
    ensures
        pairs_map(ps.update(i, (ps[i].0, w))) == pairs_map(ps).insert(ps[i].0, w),
    decreases ps.len(),
{
    let q = ps.update(i, (ps[i].0, w));
    if i == ps.len() - 1 {
        assert(q.drop_last() =~= ps.drop_last());
        assert(q.last() == (ps[i].0, w));
        assert(pairs_map(ps).insert(ps[i].0, w) =~= pairs_map(ps.drop_last()).insert(ps[i].0, w));
    } else {
        let pd = ps.drop_last();
        assert(q.drop_last() =~= pd.update(i, (pd[i].0, w)));
        assert(q.last() == ps.last());
        lemma_pairs_map_update(pd, i, w);
        assert(ps[i].0 != ps.last().0);
        assert(pairs_map(pd).insert(ps[i].0, w).insert(ps.last().0, ps.last().1) =~= pairs_map(
            pd,
        ).insert(ps.last().0, ps.last().1).insert(ps[i].0, w));
    }
}

/// The session: an identity and the entries of its state mapping.
pub struct Session {
    pub id: SessionId,
    pub data: Vec<(String, String)>,
}

impl Session {
    /// The stored entries, in insertion order.
    pub open spec fn entries(&self) -> Seq<(String, String)> {
        self.data@
    }

    /// The stored entries as character sequences.
    pub open spec fn entry_pairs(&self) -> Seq<(Seq<char>, Seq<char>)> {
        pairs_view(self.entries())
    }

    /// Well-formed: a 16-byte identity and no repeated keys.
    pub open spec fn wf(&self) -> bool {
        self.id.wf() && keys_unique(self.entries())
    }
}

impl View for Session {
    type V = Map<Seq<char>, Seq<char>>;

    open spec fn view(&self) -> Map<Seq<char>, Seq<char>> {
        pairs_map(self.entry_pairs())
    }
}

impl Session {
    /// A session with the given identity and empty state.
    pub fn new(id: SessionId) -> (s: Session)
        requires
            id.wf(),
        ensures
            s.wf(),
            s.id == id,
            s@ == Map::<Seq<char>, Seq<char>>::empty(),
            s.entry_pairs() == Seq::<(Seq<char>, Seq<char>)>::empty(),
    {
        let s = Session { id, data: Vec::new() };
        proof {
            assert(s.entry_pairs() =~= Seq::<(Seq<char>, Seq<char>)>::empty());
            assert(s@ =~= Map::<Seq<char>, Seq<char>>::empty());
        }
        s
    }

    /// Inserts or overwrites `key` with `value` in the state mapping.
    pub fn add_data(&mut self, key: String, value: String)
        requires
            old(self).wf(),
        ensures
            final(self).wf(),
            final(self).id == old(self).id,
            final(self)@ == old(self)@.insert(key@, value@),
    {
        let n = self.data.len();
        let mut i: usize = 0;
        while i < n
            invariant
                i <= n,
                n == self.data.len(),
                *self == *old(self),
                old(self).wf(),
                forall|k: int| #![auto] 0 <= k < i ==> self.data@[k].0@ != key@,
            decreases n - i,
        {
            if self.data[i].0 == key {
                let ghost ps = self.entry_pairs();
                let ghost gk = key@;
                let ghost gv = value@;
                self.data[i] = (key, value);
                proof {
                    assert(self.entry_pairs() =~= ps.update(i as int, (ps[i as int].0, gv)));
                    lemma_pairs_map_update(ps, i as int, gv);
                    assert(ps[i as int].0 == gk);
                    assert(self@ == old(self)@.insert(gk, gv));
                }
                return ;
            }
            i += 1;
        }
        let ghost ps = self.entry_pairs();
        let ghost gk = key@;
        let ghost gv = value@;
        self.data.push((key, value));
        proof {
            assert(self.entry_pairs() =~= ps.push((gk, gv)));
            assert(self.entry_pairs().drop_last() =~= ps);
            assert(self@ == old(self)@.insert(gk, gv));
        }
    }

    /// The value stored under `key`, if any.
    pub fn get(&self, key: &String) -> (r: Option<&String>)
        requires
            self.wf(),
        ensures
            match r {
                Some(v) => self@.contains_key(key@) && v@ == self@[key@],
                None => !self@.contains_key(key@),
            },
    {
        let n = self.data.len();
        let mut i: usize = 0;
        while i < n
            invariant
                i <= n,
                n == self.data.len(),
                self.wf(),
                forall|k: int| #![auto] 0 <= k < i ==> self.data@[k].0@ != key@,
            decreases n - i,
        {
            if self.data[i].0 == *key {
                proof {
                    lemma_pairs_map_get(self.entry_pairs(), i as int);
                }
                return Some(&self.data[i].1);
            }
            i += 1;
        }
        proof {
            lemma_pairs_map_absent(self.entry_pairs(), key@);
        }
        None
    }

    /// How many entries the state mapping holds.
    pub fn len(&self) -> (n: usize)
        requires
            self.wf(),
        ensures
            n == self.entries().len(),
    {
        self.data.len()
    }

    /// Recovery with the fallback identity given: a present cookie value
    /// whose payload reads back yields that identity and state; a missing
    /// or unreadable value yields the fresh identity with empty state,
    /// and never a failure.
    pub fn from_cookie_with_id(value: Option<&String>, fresh: SessionId) -> (s: Session)
        requires
            fresh.wf(),
        ensures
            s.wf(),
            match value {
                Some(v) => match parse_payload(v@) {
                    Some((idb, ps)) => s.id@ == idb && s@ == pairs_map(ps),
                    None => s.id == fresh && s@ == Map::<Seq<char>, Seq<char>>::empty(),
                },
                None => s.id == fresh && s@ == Map::<Seq<char>, Seq<char>>::empty(),
            },
    {
        let v = match value {
            None => {
                return Session::new(fresh);
            },
            Some(v) => v,
        };
        match payload_parse(v.as_str()) {
            None => Session::new(fresh),
            Some((bytes, pairs)) => {
                proof {
                    lemma_parse_payload_id_len(v@);
                }
                let id = match SessionId::from_bytes(bytes) {
                    Some(id) => id,
                    None => {
                        proof {
                            assert(false);
                        }
                        return Session::new(fresh);
                    },
                };
                let ghost gid = id@;
                let mut s = Session::new(id);
                let ghost pv = pairs_view(pairs@);
                let m = pairs.len();
                let mut i: usize = 0;
                while i < m
                    invariant
                        i <= m,
                        m == pairs.len(),
                        s.wf(),
                        s.id@ == gid,
                        pv == pairs_view(pairs@),
                        s@ == pairs_map(pv.take(i as int)),
                    decreases m - i,
                {
                    let key = pairs[i].0.clone();
                    let val = pairs[i].1.clone();
                    s.add_data(key, val);
                    proof {
                        assert(pv.take(i as int + 1).drop_last() =~= pv.take(i as int));
                        assert(pv.take(i as int + 1).last() == pv[i as int]);
                    }
                    i += 1;
                }
                proof {
                    assert(pv.take(m as int) =~= pv);
                }
                s
            },
        }
    }

    /// The payload text serializing this session: always succeeds.
    pub fn payload(&self) -> (r: String)
        requires
            self.wf(),
        ensures
            r@ == payload_text(self.id@, self.entry_pairs()),
    {
        payload_string(self.id.bytes(), &self.data)
    }

    /// The cookie scheduled for write-back: named `session`, carrying the
    /// payload, to be sent only over secure transport, hidden from
    /// client-side scripting, and with lax same-site policy.
    pub fn write_back_cookie(&self) -> (r: SessionCookie)
        requires
            self.wf(),
        ensures
            r.name@ == cookie_name(),
            r.value@ == payload_text(self.id@, self.entry_pairs()),
            r.secure,
            r.http_only,
            r.same_site == SameSitePolicy::Lax,
    {
        let name = String::from_str("session");
        proof {
            reveal_strlit("session");
            assert(name@ =~= cookie_name());
        }
        SessionCookie {
            name,
            value: self.payload(),
            secure: true,
            http_only: true,
            same_site: SameSitePolicy::Lax,
        }
    }

    /// Recovery as the request guard performs it: a fresh random identity
    /// stands in wherever no prior session can be read.
    pub fn from_cookie(value: Option<&String>) -> (s: Session)
        ensures
            s.wf(),
            match value {
                Some(v) => match parse_payload(v@) {
                    Some((idb, ps)) => s.id@ == idb && s@ == pairs_map(ps),
                    None => s@ == Map::<Seq<char>, Seq<char>>::empty(),
                },
                None => s@ == Map::<Seq<char>, Seq<char>>::empty(),
            },
    {
        let fresh = SessionId::fresh();
        Session::from_cookie_with_id(value, fresh)
    }
}

/// The fixed, case-sensitive name of the session cookie.
pub open spec fn cookie_name() -> Seq<char> {
    seq!['s', 'e', 's', 's', 'i', 'o', 'n']
}

/// A same-site policy of the write-back cookie.
#[derive(Debug, PartialEq, Eq, Structural, Clone, Copy)]
pub enum SameSitePolicy {
    Strict,
    Lax,
}

/// The plain description of the cookie handed to the response side for
/// encryption and transport.
pub struct SessionCookie {
    pub name: String,
    pub value: String,
    pub secure: bool,
    pub http_only: bool,
    pub same_site: SameSitePolicy,
}

/// The round-trip law: the payload written for any well-formed session
/// reads back as exactly that session's identity and entries, and the
/// mapping rebuilt from those entries is the session's own state.
pub proof fn lemma_write_back_round_trip(s: Session)
    requires
        s.wf(),
    ensures
        parse_payload(payload_text(s.id@, s.entry_pairs())) == Some((s.id@, s.entry_pairs())),
        pairs_map(s.entry_pairs()) == s@,
{
    lemma_payload_round_trip(s.id@, s.entry_pairs());
}

/// Storing the same key and value twice leaves the mapping as one store
/// does, and storing a new value for a key changes exactly that key.
pub proof fn lemma_store_idempotent_overwrite(
    m: Map<Seq<char>, Seq<char>>,
    k: Seq<char>,
    v: Seq<char>,
    w: Seq<char>,
)
    ensures
        m.insert(k, v).insert(k, v) == m.insert(k, v),
        m.insert(k, v).insert(k, w) == m.insert(k, w),
        m.insert(k, w)[k] == w,
        forall|k2: Seq<char>|
            #![auto]
            k2 != k ==> (m.insert(k, w).contains_key(k2) <==> m.contains_key(k2)),
        forall|k2: Seq<char>|
            #![auto]
            k2 != k && m.contains_key(k2) ==> m.insert(k, w)[k2] == m[k2],
{
    assert(m.insert(k, v).insert(k, v) =~= m.insert(k, v));
    assert(m.insert(k, v).insert(k, w) =~= m.insert(k, w));
}

} // verus!
