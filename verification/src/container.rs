use vstd::prelude::*;
use crate::docker::{data_volume, cache_volume};
use crate::text::starts_with;

verus! {

/// A named volume mounted into a container.
#[derive(Debug, Clone, PartialEq, Eq)]
pub struct VolumeMount {
    pub source: String,
    pub target: String,
}

/// A host device made available inside a container.
#[derive(Debug, Clone, PartialEq, Eq)]
pub struct DeviceMapping {
    pub path_on_host: String,
    pub path_in_container: String,
    pub cgroup_permissions: String,
}

/// Everything the daemon is told when a proxy container is created.
#[derive(Debug, Clone, PartialEq, Eq)]
pub struct ContainerSpec {
    pub name: String,
    pub image: String,
    pub network_mode: String,
    pub cap_add: Vec<String>,
    pub devices: Vec<DeviceMapping>,
    pub mounts: Vec<VolumeMount>,
    pub sysctls: Vec<(String, String)>,
    pub auto_remove: bool,
    pub env: Vec<String>,
}

/// The volumes of the proxy `name`: its data and cache volumes.
pub fn proxy_volumes(name: &str) -> (v: Vec<String>)
    ensures
        v@.len() == 2,
        v@[0]@ == data_volume(name@),
        v@[1]@ == cache_volume(name@),
{
    let mut data = name.to_owned();
    data.append("-data");
    let mut cache = name.to_owned();
    cache.append("-cache");
    let mut v = Vec::new();
    v.push(data);
    v.push(cache);
    v
}

/// The container of the proxy `name`: `image` on `network`, with `NET_ADMIN`, the TUN
/// device, its data volume at `/var/lib/cloudflare-warp` (which keeps the tunnel
/// registration across restarts) and its cache volume at `/var/cache`, IPv6 enabled,
/// removed when it stops, and the tunnel's wait settings in its environment.
pub fn proxy_container_spec(name: &str, image: &str, network: &str) -> (c: ContainerSpec)
    ensures
        c.name@ == name@,
        c.image@ == image@,
        c.network_mode@ == network@,
        c.cap_add@.len() == 1 && c.cap_add@[0]@ == "NET_ADMIN"@,
        c.devices@.len() == 1 && c.devices@[0].path_on_host@ == "/dev/net/tun"@
            && c.devices@[0].path_in_container@ == "/dev/net/tun"@ && c.devices@[0].cgroup_permissions@ == "rwm"@,
        c.mounts@.len() == 2,
        c.mounts@[0].source@ == data_volume(name@) && c.mounts@[0].target@ == "/var/lib/cloudflare-warp"@,
        c.mounts@[1].source@ == cache_volume(name@) && c.mounts@[1].target@ == "/var/cache"@,
        c.sysctls@.len() == 1 && c.sysctls@[0].0@ == "net.ipv6.conf.all.disable_ipv6"@ && c.sysctls@[0].1@ == "0"@,
        c.auto_remove,
        c.env@.len() == 2 && c.env@[0]@ == "WARP_WAIT_RETRIES=15"@ && c.env@[1]@ == "WARP_WAIT_INTERVAL=2"@,
{
    let vols = proxy_volumes(name);
    let mut mounts: Vec<VolumeMount> = Vec::new();
    mounts.push(VolumeMount { source: vols[0].clone(), target: String::from_str("/var/lib/cloudflare-warp") });
    mounts.push(VolumeMount { source: vols[1].clone(), target: String::from_str("/var/cache") });
    let mut cap_add: Vec<String> = Vec::new();
    cap_add.push(String::from_str("NET_ADMIN"));
    let mut devices: Vec<DeviceMapping> = Vec::new();
    devices.push(DeviceMapping {
        path_on_host: String::from_str("/dev/net/tun"),
        path_in_container: String::from_str("/dev/net/tun"),
        cgroup_permissions: String::from_str("rwm"),
    });
    let mut sysctls: Vec<(String, String)> = Vec::new();
    sysctls.push((String::from_str("net.ipv6.conf.all.disable_ipv6"), String::from_str("0")));
    let mut env: Vec<String> = Vec::new();
    env.push(String::from_str("WARP_WAIT_RETRIES=15"));
    env.push(String::from_str("WARP_WAIT_INTERVAL=2"));
    ContainerSpec {
        name: name.to_owned(),
        image: image.to_owned(),
        network_mode: network.to_owned(),
        cap_add,
        devices,
        mounts,
        sysctls,
        auto_remove: true,
        env,
    }
}

/// The filters of a container listing: only running containers, unless `all`.
pub fn list_filters(all: bool) -> (f: Vec<(String, Vec<String>)>)
    ensures
        all ==> f@.len() == 0,
        !all ==> f@.len() == 1 && f@[0].0@ == "status"@ && f@[0].1@.len() == 1 && f@[0].1@[0]@ == "running"@,
{
    let mut f: Vec<(String, Vec<String>)> = Vec::new();
    if !all {
        let mut v: Vec<String> = Vec::new();
        v.push(String::from_str("running"));
        f.push((String::from_str("status"), v));
    }
    f
}

/// `s` without its leading slashes (`trim_start_matches('/')`).
pub open spec fn trim_slashes(s: Seq<char>) -> Seq<char>
    decreases s.len(),
{
    if s.len() > 0 && s[0] == '/' {
        trim_slashes(s.drop_first())
    } else {
        s
    }
}

/// Whether the container name `name`, less its leading slashes, starts with `prefix`.
pub fn name_has_prefix(name: &str, prefix: &str) -> (r: bool)
    ensures
        r == prefix@.is_prefix_of(trim_slashes(name@)),
{
    let n = name.unicode_len();
    let mut i: usize = 0;
    proof {
        assert(name@.skip(0) =~= name@);
    }
    while i < n && name.get_char(i) == '/'
        invariant
            n == name@.len(),
            i <= n,
            trim_slashes(name@) == trim_slashes(name@.skip(i as int)),
        decreases n - i,
    {
        proof {
            assert(name@.skip(i as int).drop_first() =~= name@.skip(i + 1));
        }
        i = i + 1;
    }
    proof {
        if i < n {
            assert(name@.skip(i as int)[0] == name@[i as int]);
        } else {
            assert(name@.skip(i as int).len() == 0);
        }
    }
    let rest = name.substring_char(i, n);
    assert(rest@ =~= name@.skip(i as int));
    starts_with(rest, prefix)
}

/// Whether any of `names`, less leading slashes, starts with `prefix`.
pub fn any_name_has_prefix(names: &Vec<String>, prefix: &str) -> (r: bool)
    ensures
        r == exists|k: int| 0 <= k < names@.len() && prefix@.is_prefix_of(trim_slashes((#[trigger] names@[k])@)),
{
    let mut k: usize = 0;
    while k < names.len()
        invariant
            k <= names@.len(),
            forall|j: int| 0 <= j < k ==> !prefix@.is_prefix_of(trim_slashes((#[trigger] names@[j])@)),
        decreases names@.len() - k,
    {
        if name_has_prefix(names[k].as_str(), prefix) {
            return true;
        }
        k = k + 1;
    }
    false
}

/// Whether any of a container's names (there may be none) has the prefix `prefix`.
pub fn names_match_prefix(names: Option<&Vec<String>>, prefix: &str) -> (r: bool)
    ensures
        r == match names {
            Some(v) => exists|k: int| 0 <= k < v@.len() && prefix@.is_prefix_of(trim_slashes((#[trigger] v@[k])@)),
            None => false,
        },
{
    match names {
        None => false,
        Some(v) => any_name_has_prefix(v, prefix),
    }
}

/// What the answer to a removal request means.
#[derive(Debug, Clone, Copy, PartialEq, Eq, Structural)]
pub enum RemovalVerdict {
    /// The daemon removed it.
    Removed,
    /// The daemon answered 404: it was already gone.
    AlreadyGone,
    /// Any other failure.
    Failed,
}

/// Reads the answer to a container or volume removal: success, or the HTTP status of a
/// server error (`None` for an error without one). A 404 means the object was already gone.
pub fn removal_verdict(answer: Result<(), Option<u16>>) -> (v: RemovalVerdict)
    ensures
        v == match answer {
            Ok(()) => RemovalVerdict::Removed,
            Err(Some(404)) => RemovalVerdict::AlreadyGone,
            Err(_) => RemovalVerdict::Failed,
        },
{
    match answer {
        Ok(()) => RemovalVerdict::Removed,
        Err(Some(404)) => RemovalVerdict::AlreadyGone,
        Err(_) => RemovalVerdict::Failed,
    }
}

} // verus!
