//! The iPXE script dispatcher's resolution logic.
//!
//! A request names a hardware serial. A script is served only while the
//! matching host is staged for its kickstart reboot: the host row must be
//! in that state, carry an operating system, and the registry must hold a
//! script path for it. The file itself is read by the surrounding server;
//! its outcome decides between success and a server error.

use vstd::prelude::*;

use crate::inventory::HostView;
use crate::inventory::Inventory;
use crate::inventory::InventoryView;
use crate::inventory::IpxeEntryView;
use crate::progress::Progress;
use crate::text::bytes_eq;
use crate::text::copy_bytes;
use crate::text::view_opt;

verus! {

/// Whether a host row serves iPXE for this serial: the serial matches
/// and the host is staged for the kickstart reboot.
pub open spec fn serves_ipxe(h: HostView, serial: Seq<u8>) -> bool {
    h.serial == serial && h.install_progress == Progress::RebootingToKickstart.spec_code()
}

/// Index of the first host row serving iPXE for this serial, or `-1`.
pub open spec fn serving_host_index(hosts: Seq<HostView>, serial: Seq<u8>) -> int
    decreases hosts.len(),
{
    if hosts.len() == 0 {
        -1
    } else if serves_ipxe(hosts[0], serial) {
        0
    } else if serving_host_index(hosts.skip(1), serial) < 0 {
        -1
    } else {
        1 + serving_host_index(hosts.skip(1), serial)
    }
}

pub proof fn lemma_serving_index_found(hosts: Seq<HostView>, serial: Seq<u8>, i: int)
    requires
        0 <= i < hosts.len(),
        serves_ipxe(hosts[i], serial),
        forall|m: int| 0 <= m < i ==> !serves_ipxe(hosts[m], serial),
    ensures
        serving_host_index(hosts, serial) == i,
    decreases i,
{
    if i == 0 {
    } else {
        lemma_serving_index_found(hosts.skip(1), serial, i - 1);
    }
}

pub proof fn lemma_serving_index_missing(hosts: Seq<HostView>, serial: Seq<u8>)
    requires
        forall|m: int| 0 <= m < hosts.len() ==> !serves_ipxe(hosts[m], serial),
    ensures
        serving_host_index(hosts, serial) == -1,
    decreases hosts.len(),
{
    if hosts.len() == 0 {
    } else {
        lemma_serving_index_missing(hosts.skip(1), serial);
    }
}

/// The script path the registry holds for an operating system: the
/// first entry's, which may itself be unset.
pub open spec fn registered_path(ipxe: Seq<IpxeEntryView>, os: Seq<u8>) -> Option<Seq<u8>>
    decreases ipxe.len(),
{
    if ipxe.len() == 0 {
        None
    } else if ipxe[0].os == os {
        ipxe[0].script
    } else {
        registered_path(ipxe.skip(1), os)
    }
}

pub proof fn lemma_registered_path_found(ipxe: Seq<IpxeEntryView>, os: Seq<u8>, k: int)
    requires
        0 <= k < ipxe.len(),
        ipxe[k].os == os,
        forall|m: int| 0 <= m < k ==> ipxe[m].os != os,
    ensures
        registered_path(ipxe, os) == ipxe[k].script,
    decreases k,
{
    if k == 0 {
    } else {
        lemma_registered_path_found(ipxe.skip(1), os, k - 1);
    }
}

pub proof fn lemma_registered_path_missing(ipxe: Seq<IpxeEntryView>, os: Seq<u8>)
    requires
        forall|m: int| 0 <= m < ipxe.len() ==> ipxe[m].os != os,
    ensures
        registered_path(ipxe, os) is None,
    decreases ipxe.len(),
{
    if ipxe.len() == 0 {
    } else {
        lemma_registered_path_missing(ipxe.skip(1), os);
    }
}

/// The script path served for a serial, if any: the first host row
/// serving iPXE for it must carry an operating system with a registered
/// script path.
pub open spec fn ipxe_script_path(inv: InventoryView, serial: Seq<u8>) -> Option<Seq<u8>> {
    let i = serving_host_index(inv.hosts, serial);
    if i >= 0 {
        match inv.hosts[i].os {
            Some(os) => registered_path(inv.ipxe, os),
            None => None,
        }
    } else {
        None
    }
}

impl Inventory {
    /// Resolve a script request: the path of the script to serve for
    /// this serial, or nothing when no script is owed.
    pub fn resolve_ipxe(&self, serial: &Vec<u8>) -> (r: Option<Vec<u8>>)
        ensures
            view_opt(r) == ipxe_script_path(self@, serial@),
    {
        let ghost hostsv = self@.hosts;
        let mut i: usize = 0;
        while i < self.hosts.len()
            invariant
                i <= self.hosts.len(),
                hostsv == self@.hosts,
                forall|m: int| 0 <= m < i ==> !serves_ipxe(hostsv[m], serial@),
            decreases self.hosts.len() - i,
        {
            let h = &self.hosts[i];
            if h.install_progress == 5 && bytes_eq(&h.serial, serial) {
                proof {
                    assert(hostsv[i as int] == self.hosts@[i as int]@);
                    lemma_serving_index_found(hostsv, serial@, i as int);
                }
                match &h.os {
                    Some(os) => {
                        let ghost osv = os@;
                        let ghost ipxev = self@.ipxe;
                        let mut k: usize = 0;
                        while k < self.ipxe.len()
                            invariant
                                k <= self.ipxe.len(),
                                ipxev == self@.ipxe,
                                osv == os@,
                                i < self.hosts.len(),
                                serving_host_index(self@.hosts, serial@) == i as int,
                                self@.hosts[i as int].os == Some(osv),
                                forall|m: int| 0 <= m < k ==> ipxev[m].os != osv,
                            decreases self.ipxe.len() - k,
                        {
                            let entry = &self.ipxe[k];
                            if bytes_eq(&entry.os, os) {
                                proof {
                                    lemma_registered_path_found(ipxev, osv, k as int);
                                    assert(ipxev[k as int] == self.ipxe@[k as int]@);
                                }
                                return match &entry.script {
                                    Some(path) => Some(copy_bytes(path)),
                                    None => None,
                                };
                            }
                            k = k + 1;
                        }
                        proof {
                            lemma_registered_path_missing(ipxev, osv);
                        }
                        return None;
                    },
                    None => {
                        return None;
                    },
                }
            }
            i = i + 1;
        }
        proof {
            lemma_serving_index_missing(hostsv, serial@);
        }
        None
    }
}

/// An HTTP response of the dispatcher: a status code and a body.
pub struct IpxeResponse {
    pub status: u16,
    pub body: Vec<u8>,
}

/// The status served: `404` when no script is owed, `500` when the
/// script file could not be read, `200` otherwise.
pub open spec fn dispatch_status(resolved: Option<Seq<u8>>, read: Option<Seq<u8>>) -> int {
    match resolved {
        None => 404,
        Some(_) => match read {
            Some(_) => 200,
            None => 500,
        },
    }
}

/// The body served: the script file's content on success, empty
/// otherwise.
pub open spec fn dispatch_body(resolved: Option<Seq<u8>>, read: Option<Seq<u8>>) -> Seq<u8> {
    match resolved {
        Some(_) => match read {
            Some(content) => content,
            None => Seq::empty(),
        },
        None => Seq::empty(),
    }
}

/// Build the dispatcher's response from the resolved script path and the
/// outcome of reading the script file.
pub fn ipxe_response(resolved: &Option<Vec<u8>>, read: &Option<Vec<u8>>) -> (r: IpxeResponse)
    ensures
        r.status as int == dispatch_status(view_opt(*resolved), view_opt(*read)),
        r.body@ == dispatch_body(view_opt(*resolved), view_opt(*read)),
{
    match resolved {
        None => IpxeResponse { status: 404, body: Vec::new() },
        Some(_) => match read {
            Some(content) => IpxeResponse { status: 200, body: copy_bytes(content) },
            None => IpxeResponse { status: 500, body: Vec::new() },
        },
    }
}

proof fn lemma_serving_index_props(hosts: Seq<HostView>, serial: Seq<u8>)
    ensures
        serving_host_index(hosts, serial) == -1 ==> forall|m: int|
            0 <= m < hosts.len() ==> !serves_ipxe(#[trigger] hosts[m], serial),
        serving_host_index(hosts, serial) >= 0 ==> 0 <= serving_host_index(hosts, serial)
            < hosts.len() && serves_ipxe(hosts[serving_host_index(hosts, serial)], serial),
    decreases hosts.len(),
{
    if hosts.len() == 0 {
    } else if serves_ipxe(hosts[0], serial) {
    } else {
        lemma_serving_index_props(hosts.skip(1), serial);
        let r = serving_host_index(hosts.skip(1), serial);
        if r == -1 {
            assert forall|m: int| 0 <= m < hosts.len() implies !serves_ipxe(
                #[trigger] hosts[m],
                serial,
            ) by {
                if m > 0 {
                    assert(hosts.skip(1)[m - 1] == hosts[m]);
                }
            }
        } else {
            assert(hosts.skip(1)[r] == hosts[r + 1]);
        }
    }
}

proof fn lemma_registered_path_witness(ipxe: Seq<IpxeEntryView>, os: Seq<u8>)
    requires
        registered_path(ipxe, os) is Some,
    ensures
        crate::progress_control::script_registered(ipxe, os),
    decreases ipxe.len(),
{
    if ipxe.len() == 0 {
    } else if ipxe[0].os == os {
        assert(0 <= 0 < ipxe.len() && ipxe[0].os == os && ipxe[0].script is Some);
    } else {
        lemma_registered_path_witness(ipxe.skip(1), os);
        let k = choose|k: int|
            0 <= k < ipxe.skip(1).len() && (#[trigger] ipxe.skip(1)[k]).os == os && ipxe.skip(
                1,
            )[k].script is Some;
        assert(ipxe.skip(1)[k] == ipxe[k + 1]);
        assert(0 <= k + 1 < ipxe.len() && ipxe[k + 1].os == os && ipxe[k + 1].script is Some);
    }
}

/// The dispatcher answers success exactly for a serial whose host row is
/// staged for kickstart with an operating system whose registered script
/// file was readable.
pub proof fn lemma_dispatch_ok_iff_ready(inv: InventoryView, serial: Seq<u8>, read: Option<Seq<u8>>)
    requires
        inv.wf(),
    ensures
        dispatch_status(ipxe_script_path(inv, serial), read) == 200 <==> ({
            &&& exists|i: int|
                0 <= i < inv.hosts.len() && serves_ipxe(#[trigger] inv.hosts[i], serial)
                    && inv.hosts[i].os is Some && crate::progress_control::script_registered(
                    inv.ipxe,
                    inv.hosts[i].os->Some_0,
                )
            &&& read is Some
        }),
{
    let idx = serving_host_index(inv.hosts, serial);
    lemma_serving_index_props(inv.hosts, serial);
    if dispatch_status(ipxe_script_path(inv, serial), read) == 200 {
        let os = inv.hosts[idx].os->Some_0;
        lemma_registered_path_witness(inv.ipxe, os);
        assert(0 <= idx < inv.hosts.len() && serves_ipxe(inv.hosts[idx], serial)
            && inv.hosts[idx].os is Some && crate::progress_control::script_registered(
            inv.ipxe,
            inv.hosts[idx].os->Some_0,
        ));
    }
    if ({
        &&& exists|i: int|
            0 <= i < inv.hosts.len() && serves_ipxe(#[trigger] inv.hosts[i], serial)
                && inv.hosts[i].os is Some && crate::progress_control::script_registered(
                inv.ipxe,
                inv.hosts[i].os->Some_0,
            )
        &&& read is Some
    }) {
        let i = choose|i: int|
            0 <= i < inv.hosts.len() && serves_ipxe(#[trigger] inv.hosts[i], serial)
                && inv.hosts[i].os is Some && crate::progress_control::script_registered(
                inv.ipxe,
                inv.hosts[i].os->Some_0,
            );
        assert(idx >= 0);
        assert(inv.hosts[idx].serial == serial && inv.hosts[i].serial == serial);
        assert(idx == i);
        let os = inv.hosts[i].os->Some_0;
        let k = choose|k: int|
            0 <= k < inv.ipxe.len() && (#[trigger] inv.ipxe[k]).os == os
                && inv.ipxe[k].script is Some;
        assert forall|m: int| 0 <= m < k implies inv.ipxe[m].os != os by {
            assert(crate::inventory::ipxe_os_unique(inv.ipxe));
        }
        lemma_registered_path_found(inv.ipxe, os, k);
        assert(registered_path(inv.ipxe, os) is Some);
    }
}

/// A host not staged for the kickstart reboot is never served: any serial
/// whose rows are all outside that state resolves to nothing, and the
/// dispatcher answers not-found.
pub proof fn lemma_dispatch_state_guard(inv: InventoryView, serial: Seq<u8>, read: Option<Seq<u8>>)
    requires
        forall|i: int|
            0 <= i < inv.hosts.len() && (#[trigger] inv.hosts[i]).serial == serial
                ==> inv.hosts[i].install_progress
                != Progress::RebootingToKickstart.spec_code(),
    ensures
        ipxe_script_path(inv, serial) is None,
        dispatch_status(ipxe_script_path(inv, serial), read) == 404,
{
    lemma_serving_index_missing(inv.hosts, serial);
}

} // verus!
