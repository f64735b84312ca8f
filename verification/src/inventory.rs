//! The host inventory: the controller's durable model of every observed
//! host, the iPXE script registry, and the pending-install queue.
//!
//! The inventory is the single source of truth the control loops and the
//! dispatcher work from. Hosts are keyed by hardware serial; iPXE entries
//! by operating-system identifier; install-queue entries by BMC address.

use vstd::pervasive::VecAdditionalExecFns;
use vstd::prelude::*;

use crate::progress::is_progress_code;
use crate::text::bytes_eq;
use crate::text::copy_bytes;
use crate::text::view_opt;

verus! {

/// One physical host.
pub struct Host {
    /// Hardware product serial; unique across the inventory.
    pub serial: Vec<u8>,
    /// Current DHCP-assigned address.
    pub ip_address: Vec<u8>,
    /// BMC address, or the placeholder `unknown` when it could not be read.
    pub ipmi_address: Vec<u8>,
    /// Operating system assigned by an operator, if any.
    pub os: Option<Vec<u8>>,
    /// Desired DNS name, if any.
    pub hostname: Option<Vec<u8>>,
    /// Post-install production address, if any.
    pub public_ip_addr: Option<Vec<u8>>,
    /// 802.1Q VLAN id, if any.
    pub vlan_id: Option<u32>,
    /// Progress code from the fixed set of stages.
    pub install_progress: i32,
    /// Wall-clock text of the last discovery observation.
    pub last_updated: Vec<u8>,
}

/// The mathematical value of a [`Host`].
pub struct HostView {
    pub serial: Seq<u8>,
    pub ip_address: Seq<u8>,
    pub ipmi_address: Seq<u8>,
    pub os: Option<Seq<u8>>,
    pub hostname: Option<Seq<u8>>,
    pub public_ip_addr: Option<Seq<u8>>,
    pub vlan_id: Option<u32>,
    pub install_progress: int,
    pub last_updated: Seq<u8>,
}

impl View for Host {
    type V = HostView;

    open spec fn view(&self) -> HostView {
        HostView {
            serial: self.serial@,
            ip_address: self.ip_address@,
            ipmi_address: self.ipmi_address@,
            os: view_opt(self.os),
            hostname: view_opt(self.hostname),
            public_ip_addr: view_opt(self.public_ip_addr),
            vlan_id: self.vlan_id,
            install_progress: self.install_progress as int,
            last_updated: self.last_updated@,
        }
    }
}

/// One iPXE registry entry: which script file serves an operating system.
pub struct IpxeEntry {
    /// Operating-system identifier; unique across the registry.
    pub os: Vec<u8>,
    /// Filesystem path of the script body, if registered.
    pub script: Option<Vec<u8>>,
}

/// The mathematical value of an [`IpxeEntry`].
pub struct IpxeEntryView {
    pub os: Seq<u8>,
    pub script: Option<Seq<u8>>,
}

impl View for IpxeEntry {
    type V = IpxeEntryView;

    open spec fn view(&self) -> IpxeEntryView {
        IpxeEntryView { os: self.os@, script: view_opt(self.script) }
    }
}

/// The whole inventory.
pub struct Inventory {
    pub hosts: Vec<Host>,
    pub ipxe: Vec<IpxeEntry>,
    /// BMC addresses of hosts an operator asked to (re)install.
    pub install_queue: Vec<Vec<u8>>,
}

/// The mathematical value of an [`Inventory`].
pub struct InventoryView {
    pub hosts: Seq<HostView>,
    pub ipxe: Seq<IpxeEntryView>,
    pub install_queue: Seq<Seq<u8>>,
}

impl View for Inventory {
    type V = InventoryView;

    open spec fn view(&self) -> InventoryView {
        InventoryView {
            hosts: self.hosts@.map_values(|h: Host| h@),
            ipxe: self.ipxe@.map_values(|e: IpxeEntry| e@),
            install_queue: self.install_queue@.map_values(|q: Vec<u8>| q@),
        }
    }
}

/// No two hosts share a serial.
pub open spec fn serials_unique(hosts: Seq<HostView>) -> bool {
    forall|i: int, j: int|
        0 <= i < j < hosts.len() ==> hosts[i].serial != hosts[j].serial
}

/// No two registry entries share an operating system.
pub open spec fn ipxe_os_unique(ipxe: Seq<IpxeEntryView>) -> bool {
    forall|i: int, j: int| 0 <= i < j < ipxe.len() ==> ipxe[i].os != ipxe[j].os
}

impl InventoryView {
    /// The inventory's invariants: serials and registry keys are unique,
    /// every progress code is drawn from the fixed set, and a host past
    /// the initial state has an assigned operating system.
    pub open spec fn wf(self) -> bool {
        &&& serials_unique(self.hosts)
        &&& ipxe_os_unique(self.ipxe)
        &&& forall|i: int|
            0 <= i < self.hosts.len() ==> is_progress_code(
                #[trigger] self.hosts[i].install_progress,
            )
        &&& forall|i: int|
            0 <= i < self.hosts.len() ==> (#[trigger] self.hosts[i].install_progress != 0
                ==> self.hosts[i].os is Some)
    }
}

/// One discovery observation of a live-leased host.
pub struct Observation {
    /// Hardware product serial read from the host.
    pub serial: Vec<u8>,
    /// The leased address the host was probed at.
    pub ip_address: Vec<u8>,
    /// BMC address read from the host, or the placeholder `unknown`.
    pub ipmi_address: Vec<u8>,
    /// Progress code the host reported.
    pub install_progress: i32,
    /// Wall-clock text of the observation.
    pub last_updated: Vec<u8>,
}

/// The mathematical value of an [`Observation`].
pub struct ObservationView {
    pub serial: Seq<u8>,
    pub ip_address: Seq<u8>,
    pub ipmi_address: Seq<u8>,
    pub install_progress: int,
    pub last_updated: Seq<u8>,
}

impl View for Observation {
    type V = ObservationView;

    open spec fn view(&self) -> ObservationView {
        ObservationView {
            serial: self.serial@,
            ip_address: self.ip_address@,
            ipmi_address: self.ipmi_address@,
            install_progress: self.install_progress as int,
            last_updated: self.last_updated@,
        }
    }
}

/// A host row after an observation refreshes it: identity and operator
/// fields are kept; address, BMC, progress and timestamp are replaced.
pub open spec fn refreshed_host(h: HostView, obs: ObservationView) -> HostView {
    HostView {
        serial: h.serial,
        ip_address: obs.ip_address,
        ipmi_address: obs.ipmi_address,
        os: h.os,
        hostname: h.hostname,
        public_ip_addr: h.public_ip_addr,
        vlan_id: h.vlan_id,
        install_progress: obs.install_progress,
        last_updated: obs.last_updated,
    }
}

/// The host row created on first observation: operator fields are unset.
pub open spec fn created_host(obs: ObservationView) -> HostView {
    HostView {
        serial: obs.serial,
        ip_address: obs.ip_address,
        ipmi_address: obs.ipmi_address,
        os: None,
        hostname: None,
        public_ip_addr: None,
        vlan_id: None,
        install_progress: obs.install_progress,
        last_updated: obs.last_updated,
    }
}

/// Index of the first host with the given serial, or `-1` if none.
pub open spec fn host_index(hosts: Seq<HostView>, serial: Seq<u8>) -> int
    decreases hosts.len(),
{
    if hosts.len() == 0 {
        -1
    } else if hosts[0].serial == serial {
        0
    } else if host_index(hosts.skip(1), serial) < 0 {
        -1
    } else {
        1 + host_index(hosts.skip(1), serial)
    }
}

/// `host_index` agrees with a first-match search.
pub proof fn lemma_host_index_found(hosts: Seq<HostView>, serial: Seq<u8>, i: int)
    requires
        0 <= i < hosts.len(),
        hosts[i].serial == serial,
        forall|m: int| 0 <= m < i ==> hosts[m].serial != serial,
    ensures
        host_index(hosts, serial) == i,
    decreases i,
{
    if i == 0 {
    } else {
        lemma_host_index_found(hosts.skip(1), serial, i - 1);
    }
}

/// `host_index` reports absence exactly when no host has the serial.
pub proof fn lemma_host_index_missing(hosts: Seq<HostView>, serial: Seq<u8>)
    requires
        forall|m: int| 0 <= m < hosts.len() ==> hosts[m].serial != serial,
    ensures
        host_index(hosts, serial) == -1,
    decreases hosts.len(),
{
    if hosts.len() == 0 {
    } else {
        lemma_host_index_missing(hosts.skip(1), serial);
    }
}

/// The host rows after recording one observation: the first row with the
/// observed serial is refreshed, or a new row is appended.
pub open spec fn upsert_hosts(hosts: Seq<HostView>, obs: ObservationView) -> Seq<HostView> {
    let i = host_index(hosts, obs.serial);
    if i >= 0 {
        hosts.update(i, refreshed_host(hosts[i], obs))
    } else {
        hosts.push(created_host(obs))
    }
}

/// The data-model invariants are preserved by recording an observation:
/// the observed code is from the fixed set, and an observation that
/// reports work under way belongs to a host already assigned a system.
pub proof fn lemma_upsert_preserves_wf(inv: InventoryView, obs: ObservationView)
    requires
        inv.wf(),
        is_progress_code(obs.install_progress),
        obs.install_progress != 0 ==> host_index(inv.hosts, obs.serial) >= 0 && inv.hosts[
            host_index(inv.hosts, obs.serial)
        ].os is Some,
    ensures
        (InventoryView {
            hosts: upsert_hosts(inv.hosts, obs),
            ipxe: inv.ipxe,
            install_queue: inv.install_queue,
        }).wf(),
{
    lemma_host_index_props(inv.hosts, obs.serial);
    lemma_upsert_unique(inv.hosts, obs);
    let u = upsert_hosts(inv.hosts, obs);
    let idx = host_index(inv.hosts, obs.serial);
    assert forall|i: int| 0 <= i < u.len() implies is_progress_code(
        #[trigger] u[i].install_progress,
    ) && (u[i].install_progress != 0 ==> u[i].os is Some) by {
        if idx >= 0 {
            if i != idx {
                assert(u[i] == inv.hosts[i]);
            }
        } else {
            if i < inv.hosts.len() {
                assert(u[i] == inv.hosts[i]);
            }
        }
    }
}

/// The data-model invariants are preserved by completing post-install
/// configuration, provided every host sharing the production address has
/// a system assigned.
pub proof fn lemma_complete_preserves_wf(inv: InventoryView, public_ip: Seq<u8>, code: int)
    requires
        inv.wf(),
        is_progress_code(code),
        forall|i: int|
            0 <= i < inv.hosts.len() && (#[trigger] inv.hosts[i]).public_ip_addr == Some(
                public_ip,
            ) ==> inv.hosts[i].os is Some,
    ensures
        (InventoryView {
            hosts: with_progress_where_public_ip(inv.hosts, public_ip, code),
            ipxe: inv.ipxe,
            install_queue: inv.install_queue,
        }).wf(),
{
    let u = with_progress_where_public_ip(inv.hosts, public_ip, code);
    assert forall|i: int| 0 <= i < u.len() implies is_progress_code(
        #[trigger] u[i].install_progress,
    ) && (u[i].install_progress != 0 ==> u[i].os is Some) && u[i].serial
        == inv.hosts[i].serial by {
        assert(u[i] == (if inv.hosts[i].public_ip_addr == Some(public_ip) {
            HostView { install_progress: code, ..inv.hosts[i] }
        } else {
            inv.hosts[i]
        }));
    }
}

pub proof fn lemma_host_index_props(hosts: Seq<HostView>, serial: Seq<u8>)
    ensures
        host_index(hosts, serial) == -1 ==> forall|m: int|
            0 <= m < hosts.len() ==> (#[trigger] hosts[m]).serial != serial,
        host_index(hosts, serial) >= 0 ==> {
            let i = host_index(hosts, serial);
            &&& 0 <= i < hosts.len()
            &&& hosts[i].serial == serial
            &&& forall|m: int| 0 <= m < i ==> (#[trigger] hosts[m]).serial != serial
        },
    decreases hosts.len(),
{
    if hosts.len() == 0 {
    } else if hosts[0].serial == serial {
    } else {
        lemma_host_index_props(hosts.skip(1), serial);
        let r = host_index(hosts.skip(1), serial);
        if r == -1 {
            assert forall|m: int| 0 <= m < hosts.len() implies (#[trigger] hosts[m]).serial
                != serial by {
                if m > 0 {
                    assert(hosts.skip(1)[m - 1] == hosts[m]);
                }
            }
        } else {
            assert(hosts.skip(1)[r] == hosts[r + 1]);
            assert forall|m: int| 0 <= m < r + 1 implies (#[trigger] hosts[m]).serial
                != serial by {
                if m > 0 {
                    assert(hosts.skip(1)[m - 1] == hosts[m]);
                }
            }
        }
    }
}

/// Recording an observation never changes any row's serial, never touches
/// a row with a different serial, and appends at most one row, which then
/// carries the observed serial.
pub proof fn lemma_upsert_frame(hosts: Seq<HostView>, obs: ObservationView)
    ensures
        ({
            let u = upsert_hosts(hosts, obs);
            &&& hosts.len() <= u.len() <= hosts.len() + 1
            &&& forall|m: int| 0 <= m < hosts.len() ==> (#[trigger] u[m]).serial == hosts[m].serial
            &&& forall|m: int|
                0 <= m < hosts.len() && (#[trigger] hosts[m]).serial != obs.serial ==> u[m]
                    == hosts[m]
            &&& forall|m: int|
                hosts.len() <= m < u.len() ==> (#[trigger] u[m]).serial == obs.serial
        }),
{
    lemma_host_index_props(hosts, obs.serial);
}

/// Recording an observation keeps serials unique.
pub proof fn lemma_upsert_unique(hosts: Seq<HostView>, obs: ObservationView)
    requires
        serials_unique(hosts),
    ensures
        serials_unique(upsert_hosts(hosts, obs)),
{
    lemma_host_index_props(hosts, obs.serial);
    lemma_upsert_frame(hosts, obs);
    let u = upsert_hosts(hosts, obs);
    assert forall|i: int, j: int| 0 <= i < j < u.len() implies u[i].serial != u[j].serial by {
        if j < hosts.len() {
        } else if j >= hosts.len() {
            assert(u[j].serial == obs.serial);
            if i < hosts.len() {
                assert(host_index(hosts, obs.serial) == -1);
                assert(hosts[i].serial != obs.serial);
            }
        }
    }
}

/// The host rows after setting the progress of every host whose production
/// address equals `public_ip`.
pub open spec fn with_progress_where_public_ip(
    hosts: Seq<HostView>,
    public_ip: Seq<u8>,
    code: int,
) -> Seq<HostView> {
    hosts.map_values(
        |h: HostView|
            if h.public_ip_addr == Some(public_ip) {
                HostView { install_progress: code, ..h }
            } else {
                h
            },
    )
}

/// The queue with every entry for this BMC address removed, order kept.
pub open spec fn queue_without(queue: Seq<Seq<u8>>, ipmi: Seq<u8>) -> Seq<Seq<u8>>
    decreases queue.len(),
{
    if queue.len() == 0 {
        Seq::empty()
    } else if queue[0] == ipmi {
        queue_without(queue.skip(1), ipmi)
    } else {
        seq![queue[0]] + queue_without(queue.skip(1), ipmi)
    }
}

/// What remains after removing a BMC address: exactly the other entries.
pub proof fn lemma_queue_without_membership(queue: Seq<Seq<u8>>, ipmi: Seq<u8>, x: Seq<u8>)
    ensures
        queue_without(queue, ipmi).contains(x) <==> queue.contains(x) && x != ipmi,
    decreases queue.len(),
{
    if queue.len() == 0 {
    } else {
        lemma_queue_without_membership(queue.skip(1), ipmi, x);
        let rest = queue_without(queue.skip(1), ipmi);
        let whole = queue_without(queue, ipmi);
        if queue[0] == ipmi {
            if whole.contains(x) {
                assert(queue.skip(1).contains(x));
                let m = choose|m: int| 0 <= m < queue.skip(1).len() && queue.skip(1)[m] == x;
                assert(queue[m + 1] == x);
            }
            if queue.contains(x) && x != ipmi {
                let m = choose|m: int| 0 <= m < queue.len() && queue[m] == x;
                assert(m != 0);
                assert(queue.skip(1)[m - 1] == x);
            }
        } else {
            if whole.contains(x) {
                let m = choose|m: int| 0 <= m < whole.len() && whole[m] == x;
                if m == 0 {
                    assert(queue[0] == x);
                } else {
                    assert(rest[m - 1] == x);
                    assert(queue.skip(1).contains(x));
                    let n = choose|n: int|
                        0 <= n < queue.skip(1).len() && queue.skip(1)[n] == x;
                    assert(queue[n + 1] == x);
                }
            }
            if queue.contains(x) && x != ipmi {
                let m = choose|m: int| 0 <= m < queue.len() && queue[m] == x;
                if m == 0 {
                    assert(whole[0] == x);
                } else {
                    assert(queue.skip(1)[m - 1] == x);
                    assert(rest.contains(x));
                    let n = choose|n: int| 0 <= n < rest.len() && rest[n] == x;
                    assert(whole[n + 1] == x);
                }
            }
        }
    }
}

/// A fresh copy of an optional byte string.
pub fn copy_opt_bytes(o: &Option<Vec<u8>>) -> (r: Option<Vec<u8>>)
    ensures
        view_opt(r) == view_opt(*o),
{
    match o {
        Some(v) => Some(copy_bytes(v)),
        None => None,
    }
}

impl Inventory {
    /// An inventory with no hosts, no registry entries and an empty queue.
    pub fn new() -> (inv: Inventory)
        ensures
            inv@.hosts == Seq::<HostView>::empty(),
            inv@.ipxe == Seq::<IpxeEntryView>::empty(),
            inv@.install_queue == Seq::<Seq<u8>>::empty(),
            inv@.wf(),
    {
        let inv = Inventory { hosts: Vec::new(), ipxe: Vec::new(), install_queue: Vec::new() };
        proof {
            assert(inv@.hosts =~= Seq::<HostView>::empty());
            assert(inv@.ipxe =~= Seq::<IpxeEntryView>::empty());
            assert(inv@.install_queue =~= Seq::<Seq<u8>>::empty());
        }
        inv
    }

    /// Record one discovery observation: refresh the row with this serial,
    /// or create it on first sight.
    pub fn upsert_host(&mut self, obs: &Observation)
        ensures
            final(self)@.hosts == upsert_hosts(old(self)@.hosts, obs@),
            final(self)@.ipxe == old(self)@.ipxe,
            final(self)@.install_queue == old(self)@.install_queue,
    {
        let found = self.find_host_by_serial(&obs.serial);
        match found {
            Some(i) => {
                proof {
                    lemma_host_index_found(self@.hosts, obs.serial@, i as int);
                }
                let h = &self.hosts[i];
                let updated = Host {
                    serial: copy_bytes(&h.serial),
                    ip_address: copy_bytes(&obs.ip_address),
                    ipmi_address: copy_bytes(&obs.ipmi_address),
                    os: copy_opt_bytes(&h.os),
                    hostname: copy_opt_bytes(&h.hostname),
                    public_ip_addr: copy_opt_bytes(&h.public_ip_addr),
                    vlan_id: h.vlan_id,
                    install_progress: obs.install_progress,
                    last_updated: copy_bytes(&obs.last_updated),
                };
                proof {
                    assert(updated@ == refreshed_host(old(self)@.hosts[i as int], obs@));
                }
                self.hosts.set(i, updated);
                proof {
                    assert(final(self)@.hosts =~= old(self)@.hosts.update(
                        i as int,
                        refreshed_host(old(self)@.hosts[i as int], obs@),
                    ));
                }
            },
            None => {
                proof {
                    lemma_host_index_missing(self@.hosts, obs.serial@);
                }
                let fresh = Host {
                    serial: copy_bytes(&obs.serial),
                    ip_address: copy_bytes(&obs.ip_address),
                    ipmi_address: copy_bytes(&obs.ipmi_address),
                    os: None,
                    hostname: None,
                    public_ip_addr: None,
                    vlan_id: None,
                    install_progress: obs.install_progress,
                    last_updated: copy_bytes(&obs.last_updated),
                };
                proof {
                    assert(fresh@ == created_host(obs@));
                }
                self.hosts.push(fresh);
                proof {
                    assert(final(self)@.hosts =~= old(self)@.hosts.push(created_host(obs@)));
                }
            },
        }
    }

    /// Set the progress of every host whose production address equals
    /// `public_ip` to `code`.
    pub fn update_progress_where_public_ip(&mut self, public_ip: &Vec<u8>, code: i32)
        ensures
            final(self)@.hosts == with_progress_where_public_ip(
                old(self)@.hosts,
                public_ip@,
                code as int,
            ),
            final(self)@.ipxe == old(self)@.ipxe,
            final(self)@.install_queue == old(self)@.install_queue,
    {
        let ghost pre = self@;
        let ghost target = with_progress_where_public_ip(pre.hosts, public_ip@, code as int);
        let mut i: usize = 0;
        while i < self.hosts.len()
            invariant
                i <= self.hosts.len(),
                self.hosts.len() == pre.hosts.len(),
                self@.ipxe == pre.ipxe,
                self@.install_queue == pre.install_queue,
                target == with_progress_where_public_ip(pre.hosts, public_ip@, code as int),
                forall|m: int| 0 <= m < i ==> self@.hosts[m] == target[m],
                forall|m: int| i <= m < pre.hosts.len() ==> self@.hosts[m] == pre.hosts[m],
            decreases self.hosts.len() - i,
        {
            let h = &self.hosts[i];
            let matches_ip = match &h.public_ip_addr {
                Some(ip) => bytes_eq(ip, public_ip),
                None => false,
            };
            if matches_ip {
                let h = &self.hosts[i];
                let updated = Host {
                    serial: copy_bytes(&h.serial),
                    ip_address: copy_bytes(&h.ip_address),
                    ipmi_address: copy_bytes(&h.ipmi_address),
                    os: copy_opt_bytes(&h.os),
                    hostname: copy_opt_bytes(&h.hostname),
                    public_ip_addr: copy_opt_bytes(&h.public_ip_addr),
                    vlan_id: h.vlan_id,
                    install_progress: code,
                    last_updated: copy_bytes(&h.last_updated),
                };
                proof {
                    assert(updated@ == target[i as int]);
                }
                self.hosts.set(i, updated);
            }
            i = i + 1;
        }
        proof {
            assert(self@.hosts =~= target);
        }
    }

    /// Remove every pending-install entry for this BMC address.
    pub fn delete_install_queue_entry(&mut self, ipmi: &Vec<u8>)
        ensures
            final(self)@.install_queue == queue_without(old(self)@.install_queue, ipmi@),
            final(self)@.hosts == old(self)@.hosts,
            final(self)@.ipxe == old(self)@.ipxe,
    {
        let ghost pre = self@;
        let ghost target = queue_without(pre.install_queue, ipmi@);
        let mut out: Vec<Vec<u8>> = Vec::new();
        let mut i: usize = 0;
        proof {
            assert(pre.install_queue.skip(0) =~= pre.install_queue);
            assert(out@.map_values(|q: Vec<u8>| q@) =~= Seq::<Seq<u8>>::empty());
            assert(Seq::<Seq<u8>>::empty() + target =~= target);
        }
        while i < self.install_queue.len()
            invariant
                i <= self.install_queue.len(),
                self@ == pre,
                target == queue_without(pre.install_queue, ipmi@),
                target == out@.map_values(|q: Vec<u8>| q@) + queue_without(
                    pre.install_queue.skip(i as int),
                    ipmi@,
                ),
            decreases self.install_queue.len() - i,
        {
            let ghost entryv = pre.install_queue[i as int];
            let ghost done = out@.map_values(|q: Vec<u8>| q@);
            proof {
                assert(pre.install_queue.skip(i as int)[0] == entryv);
                assert(pre.install_queue.skip(i as int).skip(1) =~= pre.install_queue.skip(
                    i + 1,
                ));
            }
            let q = &self.install_queue[i];
            if !bytes_eq(q, ipmi) {
                let kept = copy_bytes(q);
                let ghost keptv = kept@;
                out.push(kept);
                proof {
                    assert(out@.map_values(|q: Vec<u8>| q@) =~= done.push(keptv));
                    assert(done.push(keptv) + queue_without(
                        pre.install_queue.skip(i + 1),
                        ipmi@,
                    ) =~= done + (seq![entryv] + queue_without(
                        pre.install_queue.skip(i + 1),
                        ipmi@,
                    )));
                }
            }
            i = i + 1;
        }
        proof {
            assert(pre.install_queue.skip(pre.install_queue.len() as int) =~= Seq::<
                Seq<u8>,
            >::empty());
        }
        self.install_queue = out;
    }

    /// Index of the host with the given serial, if any.
    pub fn find_host_by_serial(&self, serial: &Vec<u8>) -> (r: Option<usize>)
        ensures
            match r {
                Some(i) => {
                    &&& i < self@.hosts.len()
                    &&& self@.hosts[i as int].serial == serial@
                    &&& forall|m: int| 0 <= m < i ==> self@.hosts[m].serial != serial@
                },
                None => forall|m: int|
                    0 <= m < self@.hosts.len() ==> self@.hosts[m].serial != serial@,
            },
    {
        let mut i: usize = 0;
        while i < self.hosts.len()
            invariant
                i <= self.hosts.len(),
                forall|m: int| 0 <= m < i ==> self@.hosts[m].serial != serial@,
            decreases self.hosts.len() - i,
        {
            if bytes_eq(&self.hosts[i].serial, serial) {
                return Some(i);
            }
            i = i + 1;
        }
        None
    }
}

} // verus!
