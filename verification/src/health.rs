use vstd::prelude::*;

verus! {

/// Outcome of probing one proxy container.
#[derive(Debug, Clone, PartialEq, Eq)]
pub struct HealthResult {
    pub running: bool,
    pub socks5: bool,
    pub http: bool,
    pub tunnel_connected: bool,
    pub tunnel_detail: String,
}

impl HealthResult {
    /// A proxy is healthy when it runs and all three probes pass.
    pub open spec fn spec_healthy(&self) -> bool {
        self.running && self.socks5 && self.http && self.tunnel_connected
    }

    /// The probe result of a container: whether it runs, the SOCKS5 and HTTP CONNECT probes,
    /// and the status its tunnel reports (`warp-cli status`, when it could be read); the
    /// tunnel is connected when that status is `Connected`.
    pub fn from_probes(running: bool, socks5: bool, http: bool, tunnel: Option<String>) -> (r: HealthResult)
        ensures
            r.running == running,
            r.socks5 == socks5,
            r.http == http,
            r.tunnel_connected == (tunnel matches Some(t) && t@ == "Connected"@),
            r.tunnel_detail@ == match tunnel {
                Some(t) => t@,
                None => Seq::<char>::empty(),
            },
    {
        let (connected, detail) = match tunnel {
            Some(t) => (crate::text::eq_str(t.as_str(), "Connected"), t),
            None => (false, String::new()),
        };
        HealthResult { running, socks5, http, tunnel_connected: connected, tunnel_detail: detail }
    }

    pub fn healthy(&self) -> (r: bool)
        ensures
            r == self.spec_healthy(),
    {
        self.running && self.socks5 && self.http && self.tunnel_connected
    }
}

} // verus!
