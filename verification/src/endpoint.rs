use vstd::prelude::*;
use crate::clock::now_millis;

verus! {

/// One proxy container of the pool, as the control plane sees it.
#[derive(Debug, PartialEq, Eq)]
pub struct Endpoint {
    pub name: String,
    pub container_id: String,
    pub healthy: bool,
    pub socks5_ok: bool,
    pub http_ok: bool,
    pub tunnel_connected: bool,
    pub tunnel_detail: String,
    /// Creation time, in milliseconds since the Unix epoch.
    pub created_at: i64,
    pub busy: bool,
}

impl Clone for Endpoint {
    fn clone(&self) -> (r: Self)
        ensures
            r == *self,
    {
        Endpoint {
            name: self.name.clone(),
            container_id: self.container_id.clone(),
            healthy: self.healthy,
            socks5_ok: self.socks5_ok,
            http_ok: self.http_ok,
            tunnel_connected: self.tunnel_connected,
            tunnel_detail: self.tunnel_detail.clone(),
            created_at: self.created_at,
            busy: self.busy,
        }
    }
}


impl Endpoint {
    /// A freshly registered endpoint: every probe flag off, not busy, no tunnel detail.
    pub open spec fn fresh(name: Seq<char>, container_id: Seq<char>, created_at: i64, e: Endpoint) -> bool {
        &&& e.name@ == name
        &&& e.container_id@ == container_id
        &&& !e.healthy && !e.socks5_ok && !e.http_ok && !e.tunnel_connected
        &&& e.tunnel_detail@ == Seq::<char>::empty()
        &&& e.created_at == created_at
        &&& !e.busy
    }

    /// A new endpoint created at `created_at` (milliseconds since the epoch).
    pub fn new_at(name: &str, container_id: &str, created_at: i64) -> (e: Endpoint)
        ensures
            Endpoint::fresh(name@, container_id@, created_at, e),
    {
        Endpoint {
            name: name.to_owned(),
            container_id: container_id.to_owned(),
            healthy: false,
            socks5_ok: false,
            http_ok: false,
            tunnel_connected: false,
            tunnel_detail: String::new(),
            created_at,
            busy: false,
        }
    }

    /// A new endpoint created now; the creation time is whatever the clock reads.
    pub fn new(name: &str, container_id: &str) -> (e: Endpoint)
        ensures
            Endpoint::fresh(name@, container_id@, e.created_at, e),
    {
        Endpoint::new_at(name, container_id, now_millis())
    }

    /// `socks5://{name}:1080`.
    pub open spec fn spec_socks5_url(self) -> Seq<char> {
        "socks5://"@ + self.name@ + ":1080"@
    }

    /// `http://{name}:3128`.
    pub open spec fn spec_http_url(self) -> Seq<char> {
        "http://"@ + self.name@ + ":3128"@
    }

    /// The SOCKS5 address of the proxy on the Docker network.
    pub fn socks5_url(&self) -> (u: String)
        ensures
            u@ == self.spec_socks5_url(),
    {
        let mut u = String::from_str("socks5://");
        u.append(self.name.as_str());
        u.append(":1080");
        u
    }

    /// The HTTP (CONNECT) address of the proxy on the Docker network.
    pub fn http_url(&self) -> (u: String)
        ensures
            u@ == self.spec_http_url(),
    {
        let mut u = String::from_str("http://");
        u.append(self.name.as_str());
        u.append(":3128");
        u
    }
}

} // verus!
