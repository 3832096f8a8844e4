use vstd::prelude::*;
use vstd::utf8::{encode_utf8, encode_utf8_decode_utf8};
use crate::clock::now_millis;
use crate::errors::ApiError;
use crate::keyed::{keys_unique, has_entry, entry_index, keyed_map, lemma_entry_at, lemma_keyed_push, lemma_keyed_update};
use crate::seqs::{lemma_filter_take_step, lemma_take_all};
use crate::text::eq_str;

verus! {

/// Failed attempts allowed per client in one window.
pub const RATE_LIMIT: usize = 10;
/// The rate-limit window, in milliseconds.
pub const WINDOW_MS: i64 = 60_000;

/// Compares two byte strings in time that depends only on their lengths.
pub fn constant_eq(a: &[u8], b: &[u8]) -> (r: bool)
    ensures
        r == (a@ == b@),
{
    if a.len() != b.len() {
        return false;
    }
    let mut diff: u8 = 0;
    let mut i: usize = 0;
    while i < a.len()
        invariant
            a@.len() == b@.len(),
            i <= a@.len(),
            (diff == 0) == (forall|j: int| 0 <= j < i ==> a@[j] == b@[j]),
        decreases a@.len() - i,
    {
        let x = a[i];
        let y = b[i];
        let d = diff;
        let nd = d | (x ^ y);
        assert((nd == 0) == (d == 0 && x == y)) by (bit_vector)
            requires
                nd == d | (x ^ y),
        ;
        diff = nd;
        i = i + 1;
    }
    assert((diff == 0) ==> a@ =~= b@);
    diff == 0
}

/// Byte strings agree exactly when the texts they encode agree.
pub proof fn lemma_encode_injective(s: Seq<char>, t: Seq<char>)
    ensures
        (encode_utf8(s) == encode_utf8(t)) == (s == t),
{
    encode_utf8_decode_utf8(s);
    encode_utf8_decode_utf8(t);
}

/// The attempts of `ts` within the window before `now`.
pub open spec fn recent(ts: Seq<i64>, now: i64) -> Seq<i64> {
    ts.filter(within_window(now))
}

pub open spec fn within_window(now: i64) -> spec_fn(i64) -> bool {
    |t: i64| now - t < WINDOW_MS
}

/// The value of the `Authorization` header that the key `key` accepts.
pub open spec fn bearer(key: Seq<char>) -> Seq<char> {
    "Bearer "@ + key
}

pub open spec fn ip_key() -> spec_fn((String, Vec<i64>)) -> Seq<char> {
    |e: (String, Vec<i64>)| e.0@
}

pub open spec fn ip_val() -> spec_fn((String, Vec<i64>)) -> Seq<i64> {
    |e: (String, Vec<i64>)| e.1@
}

/// Bearer-key authentication with a per-client limit on failed attempts.
#[derive(Debug)]
pub struct AuthGate {
    api_key: Option<String>,
    failures: Vec<(String, Vec<i64>)>,
}

/// The error `e` a request from `client` gets at `now` when its key is wrong, and the
/// failures kept afterwards: 429 when the client already has `RATE_LIMIT` failures within
/// the window, and nothing new is kept; else 401, and `now` is kept as a failure. Failures
/// older than the window are let go in both cases.
pub open spec fn refused(before: AuthGate, after: AuthGate, client: Seq<char>, now: i64, e: ApiError) -> bool {
    let kept = recent(before.failures_of(client), now);
    &&& kept.len() >= RATE_LIMIT ==> {
        &&& e.is(429, "RATE_LIMITED"@, "too many requests"@, Seq::<char>::empty())
        &&& after.failures() == before.failures().insert(client, kept)
    }
    &&& kept.len() < RATE_LIMIT ==> {
        &&& e.is(401, "UNAUTHORIZED"@, "unauthorized"@, Seq::<char>::empty())
        &&& after.failures() == before.failures().insert(client, kept.push(now))
    }
}

impl AuthGate {
    /// The key requests must present, if any.
    pub closed spec fn key(&self) -> Option<Seq<char>> {
        match self.api_key {
            Some(k) => Some(k@),
            None => None,
        }
    }

    /// The times of the failed attempts kept for each client.
    pub closed spec fn failures(&self) -> Map<Seq<char>, Seq<i64>> {
        keyed_map(self.failures@, ip_key(), ip_val())
    }

    pub closed spec fn wf(&self) -> bool {
        keys_unique(self.failures@, ip_key())
    }

    /// The recorded failures of `client`.
    pub open spec fn failures_of(&self, client: Seq<char>) -> Seq<i64> {
        if self.failures().contains_key(client) {
            self.failures()[client]
        } else {
            Seq::empty()
        }
    }

    pub fn new(api_key: Option<String>) -> (g: AuthGate)
        ensures
            g.wf(),
            g.key() == match api_key { Some(k) => Some(k@), None => None::<Seq<char>> },
            g.failures() == Map::<Seq<char>, Seq<i64>>::empty(),
    {
        let g = AuthGate { api_key, failures: Vec::new() };
        assert(g.failures() =~= Map::<Seq<char>, Seq<i64>>::empty());
        g
    }

    /// Whether `auth` is an accepted `Authorization` header: anything when there is no key,
    /// else exactly `Bearer {key}`.
    pub open spec fn accepts(&self, auth: Seq<char>) -> bool {
        match self.key() {
            None => true,
            Some(k) => auth == bearer(k),
        }
    }

    /// Checks the `Authorization` header `auth` of a request from `client` at `now`. A refused
    /// request counts against its client: with `RATE_LIMIT` failures already within the
    /// window it is answered 429, else 401.
    pub fn check_at(&mut self, auth: &str, client: &str, now: i64) -> (r: Result<(), ApiError>)
        requires
            old(self).wf(),
        ensures
            final(self).wf(),
            final(self).key() == old(self).key(),
            old(self).accepts(auth@) ==> r is Ok && final(self).failures() == old(self).failures(),
            !old(self).accepts(auth@) ==> (r matches Err(e) && refused(*old(self), *final(self), client@, now, e)),
    {
        let key = match &self.api_key {
            None => return Ok(()),
            Some(k) => k,
        };
        let mut expected = String::from_str("Bearer ");
        expected.append(key.as_str());
        let same = constant_eq(auth.as_bytes(), expected.as_str().as_bytes());
        proof {
            lemma_encode_injective(auth@, expected@);
        }
        if same {
            return Ok(());
        }
        let ghost m0 = self.failures();
        let idx = self.find_client(client);
        let ghost old_ts: Seq<i64> = match idx { Some(i) => self.failures@[i as int].1@, None => Seq::empty() };
        proof {
            if let Some(i) = idx {
                lemma_entry_at(self.failures@, ip_key(), i as int);
            }
            assert(old_ts == old(self).failures_of(client@));
        }
        let mut kept: Vec<i64> = Vec::new();
        match idx {
            Some(i) => {
                let ghost ts = self.failures@[i as int].1@;
                let mut j: usize = 0;
                let n = self.failures[i].1.len();
                while j < n
                    invariant
                        i < self.failures@.len(),
                        ts == self.failures@[i as int].1@,
                        n == ts.len(),
                        j <= n,
                        kept@ == ts.take(j as int).filter(within_window(now)),
                    decreases n - j,
                {
                    proof {
                        lemma_filter_take_step(ts, j as int, within_window(now));
                    }
                    let t = self.failures[i].1[j];
                    if (now as i128) - (t as i128) < WINDOW_MS as i128 {
                        kept.push(t);
                    }
                    j = j + 1;
                }
                proof {
                    lemma_take_all(ts);
                }
            },
            None => {
                proof {
                    reveal(Seq::filter);
                }
            },
        }
        assert(kept@ == recent(old_ts, now));
        let limited = kept.len() >= RATE_LIMIT;
        let ghost kept_v = kept@;
        if !limited {
            kept.push(now);
        }
        let entry = (client.to_owned(), kept);
        proof {
            assert((ip_key())(entry) == client@);
        }
        match idx {
            Some(i) => {
                proof {
                    lemma_keyed_update(self.failures@, ip_key(), ip_val(), i as int, entry);
                }
                self.failures.set(i, entry);
            },
            None => {
                proof {
                    lemma_keyed_push(self.failures@, ip_key(), ip_val(), entry);
                }
                self.failures.push(entry);
            },
        }
        proof {
            reveal_strlit("");
            assert(kept_v == recent(old(self).failures_of(client@), now));
        }
        let r = if limited {
            Err(ApiError::new(429, "RATE_LIMITED", "too many requests", ""))
        } else {
            Err(ApiError::new(401, "UNAUTHORIZED", "unauthorized", ""))
        };
        proof {
            let kept2 = recent(old(self).failures_of(client@), now);
            assert(kept2 == kept_v);
            if limited {
                assert(self.failures() == old(self).failures().insert(client@, kept2));
                assert(r matches Err(e) && e.status == 429 && e.code@ == "RATE_LIMITED"@
                    && e.message@ == "too many requests"@ && e.request_id@ == Seq::<char>::empty());
            } else {
                assert(self.failures() == old(self).failures().insert(client@, kept2.push(now)));
                assert(r matches Err(e) && e.status == 401 && e.code@ == "UNAUTHORIZED"@
                    && e.message@ == "unauthorized"@ && e.request_id@ == Seq::<char>::empty());
            }
        }
        r
    }

    /// Checks the `Authorization` header `auth` of a request from `client`, now.
    pub fn check(&mut self, auth: &str, client: &str) -> (r: Result<(), ApiError>)
        requires
            old(self).wf(),
        ensures
            final(self).wf(),
            final(self).key() == old(self).key(),
            old(self).accepts(auth@) ==> r is Ok && final(self).failures() == old(self).failures(),
            !old(self).accepts(auth@) ==> (r matches Err(e) && exists|now: i64|
                #[trigger] refused(*old(self), *final(self), client@, now, e)),
    {
        let now = now_millis();
        self.check_at(auth, client, now)
    }

    fn find_client(&self, client: &str) -> (r: Option<usize>)
        ensures
            match r {
                Some(i) => i < self.failures@.len() && self.failures@[i as int].0@ == client@,
                None => !has_entry(self.failures@, ip_key(), client@),
            },
    {
        let mut i: usize = 0;
        while i < self.failures.len()
            invariant
                i <= self.failures@.len(),
                forall|j: int| 0 <= j < i ==> (#[trigger] self.failures@[j]).0@ != client@,
            decreases self.failures@.len() - i,
        {
            if eq_str(self.failures[i].0.as_str(), client) {
                return Some(i);
            }
            i = i + 1;
        }
        None
    }
}

} // verus!
