//! The discovery pipeline's decisions.
//!
//! Each tick, the controller probes every live-leased address for its
//! serial, its BMC address and its self-reported progress, turns each
//! probe into an observation where the probe succeeded, records the
//! observations in the inventory, and acknowledges the recorded progress
//! back to the host.

use vstd::prelude::*;

use crate::inventory::lemma_host_index_props;
use crate::inventory::lemma_upsert_frame;
use crate::inventory::lemma_upsert_unique;
use crate::inventory::upsert_hosts;
use crate::inventory::HostView;
use crate::inventory::Inventory;
use crate::inventory::Observation;
use crate::inventory::ObservationView;
use crate::progress::is_progress_code;
use crate::progress::Progress;
use crate::text::copy_bytes;
use crate::text::parse_i32;
use crate::text::parse_i32_of;
use crate::text::trim;
use crate::text::trim_of;
use crate::text::view_opt;

verus! {

/// The placeholder recorded when a host's BMC address cannot be read.
pub open spec fn unknown_marker() -> Seq<u8> {
    seq![117u8, 110u8, 107u8, 110u8, 111u8, 119u8, 110u8]
}

fn unknown_vec() -> (v: Vec<u8>)
    ensures
        v@ == unknown_marker(),
{
    let mut v: Vec<u8> = Vec::new();
    v.push(117);
    v.push(110);
    v.push(107);
    v.push(110);
    v.push(111);
    v.push(119);
    v.push(110);
    proof {
        assert(v@ =~= unknown_marker());
    }
    v
}

/// The probe results for one live-leased address.
pub struct ProbeResults {
    /// The hardware serial read from the host, if the probe succeeded.
    pub serial: Option<Vec<u8>>,
    /// The BMC address read from the host, if the probe succeeded.
    pub ipmi_address: Option<Vec<u8>>,
    /// The content of the host's progress file, if the probe succeeded.
    pub install_progress: Option<Vec<u8>>,
}

/// The observation a set of probe results yields: none unless the serial
/// was read and the progress text parses to a known code; a missing BMC
/// address becomes the placeholder `unknown`.
pub open spec fn planned_observation(
    ip: Seq<u8>,
    serial: Option<Seq<u8>>,
    ipmi: Option<Seq<u8>>,
    progress_raw: Option<Seq<u8>>,
    now_text: Seq<u8>,
) -> Option<ObservationView> {
    match (serial, progress_raw) {
        (Some(s), Some(p)) => match parse_i32_of(p) {
            Some(code) => if is_progress_code(code as int) {
                Some(
                    ObservationView {
                        serial: trim_of(s),
                        ip_address: ip,
                        ipmi_address: match ipmi {
                            Some(m) => m,
                            None => unknown_marker(),
                        },
                        install_progress: code as int,
                        last_updated: now_text,
                    },
                )
            } else {
                None
            },
            None => None,
        },
        _ => None,
    }
}

/// Turn one address's probe results into the observation to record, if
/// any. The progress code in the result is also the value to acknowledge
/// back to the host.
pub fn plan_observation(ip: &Vec<u8>, probes: &ProbeResults, now_text: &Vec<u8>) -> (r: Option<
    Observation,
>)
    ensures
        match r {
            Some(obs) => {
                &&& planned_observation(
                    ip@,
                    view_opt(probes.serial),
                    view_opt(probes.ipmi_address),
                    view_opt(probes.install_progress),
                    now_text@,
                ) == Some(obs@)
                &&& is_progress_code(obs@.install_progress)
            },
            None => planned_observation(
                ip@,
                view_opt(probes.serial),
                view_opt(probes.ipmi_address),
                view_opt(probes.install_progress),
                now_text@,
            ) is None,
        },
{
    let serial = match &probes.serial {
        Some(s) => s,
        None => {
            return None;
        },
    };
    let progress_raw = match &probes.install_progress {
        Some(p) => p,
        None => {
            return None;
        },
    };
    let code = match parse_i32(progress_raw) {
        Some(c) => c,
        None => {
            return None;
        },
    };
    if Progress::from_code(code).is_none() {
        return None;
    }
    let ipmi = match &probes.ipmi_address {
        Some(m) => copy_bytes(m),
        None => unknown_vec(),
    };
    Some(
        Observation {
            serial: trim(serial),
            ip_address: copy_bytes(ip),
            ipmi_address: ipmi,
            install_progress: code,
            last_updated: copy_bytes(now_text),
        },
    )
}

/// The host rows after recording a sequence of observations in order.
pub open spec fn apply_observations(hosts: Seq<HostView>, obss: Seq<ObservationView>) -> Seq<
    HostView,
>
    decreases obss.len(),
{
    if obss.len() == 0 {
        hosts
    } else {
        apply_observations(upsert_hosts(hosts, obss[0]), obss.skip(1))
    }
}

/// The element-wise views of a sequence of observations.
pub open spec fn obs_views(obss: Seq<Observation>) -> Seq<ObservationView> {
    obss.map_values(|o: Observation| o@)
}

/// Record one discovery tick's observations in the inventory, in order.
pub fn run_discovery_tick(inv: &mut Inventory, observations: &Vec<Observation>)
    ensures
        final(inv)@.hosts == apply_observations(old(inv)@.hosts, obs_views(observations@)),
        final(inv)@.ipxe == old(inv)@.ipxe,
        final(inv)@.install_queue == old(inv)@.install_queue,
{
    let ghost all = obs_views(observations@);
    let ghost target = apply_observations(old(inv)@.hosts, all);
    let mut i: usize = 0;
    proof {
        assert(all.skip(0) =~= all);
    }
    while i < observations.len()
        invariant
            i <= observations.len(),
            all == obs_views(observations@),
            target == apply_observations(old(inv)@.hosts, all),
            target == apply_observations(inv@.hosts, all.skip(i as int)),
            inv@.ipxe == old(inv)@.ipxe,
            inv@.install_queue == old(inv)@.install_queue,
        decreases observations.len() - i,
    {
        proof {
            assert(all.skip(i as int)[0] == all[i as int]);
            assert(all.skip(i as int).skip(1) =~= all.skip(i + 1));
        }
        inv.upsert_host(&observations[i]);
        i = i + 1;
    }
    proof {
        assert(all.skip(all.len() as int) =~= Seq::<ObservationView>::empty());
    }
}

// ---------------------------------------------------------------------
// Idempotence of a discovery tick.
// ---------------------------------------------------------------------
/// Recording observations for other serials leaves a row untouched, and
/// every appended row carries one of the observed serials.
proof fn lemma_apply_frame(hosts: Seq<HostView>, obss: Seq<ObservationView>)
    ensures
        ({
            let a = apply_observations(hosts, obss);
            &&& hosts.len() <= a.len()
            &&& forall|m: int| 0 <= m < hosts.len() ==> (#[trigger] a[m]).serial == hosts[m].serial
            &&& forall|m: int|
                0 <= m < hosts.len() && (forall|j: int|
                    0 <= j < obss.len() ==> (#[trigger] obss[j]).serial != hosts[m].serial)
                    ==> (#[trigger] a[m]) == hosts[m]
            &&& forall|m: int|
                #![trigger a[m]]
                hosts.len() <= m < a.len() ==> exists|j: int|
                    0 <= j < obss.len() && (#[trigger] obss[j]).serial == a[m].serial
        }),
    decreases obss.len(),
{
    if obss.len() == 0 {
    } else {
        let o = obss[0];
        let u = upsert_hosts(hosts, o);
        let a = apply_observations(hosts, obss);
        lemma_upsert_frame(hosts, o);
        lemma_apply_frame(u, obss.skip(1));
        assert(apply_observations(u, obss.skip(1)) == a);
        assert forall|m: int|
            0 <= m < hosts.len() && (forall|j: int|
                0 <= j < obss.len() ==> (#[trigger] obss[j]).serial != hosts[m].serial)
            implies (#[trigger] a[m]) == hosts[m] by {
            assert(obss[0].serial != hosts[m].serial);
            assert(u[m] == hosts[m]);
            assert forall|j: int| 0 <= j < obss.skip(1).len() implies (#[trigger] obss.skip(
                1,
            )[j]).serial != u[m].serial by {
                assert(obss.skip(1)[j] == obss[j + 1]);
            }
        }
        assert forall|m: int| #![trigger a[m]] hosts.len() <= m < a.len() implies exists|j: int|
            0 <= j < obss.len() && (#[trigger] obss[j]).serial == a[m].serial by {
            if m < u.len() {
                assert(u[m].serial == o.serial);
                assert(a[m].serial == u[m].serial);
                assert(obss[0].serial == a[m].serial);
            } else {
                let j = choose|j: int|
                    0 <= j < obss.skip(1).len() && (#[trigger] obss.skip(1)[j]).serial
                        == a[m].serial;
                assert(obss[j + 1].serial == a[m].serial);
            }
        }
    }
}

/// Recording the same observations again is a no-op: one discovery tick
/// is idempotent on the host rows, provided serials are unique and each
/// host is observed once in the tick.
pub proof fn lemma_discovery_tick_idempotent(hosts: Seq<HostView>, obss: Seq<ObservationView>)
    requires
        crate::inventory::serials_unique(hosts),
        forall|j1: int, j2: int|
            0 <= j1 < j2 < obss.len() ==> (#[trigger] obss[j1]).serial != (#[trigger] obss[j2]).serial,
    ensures
        apply_observations(apply_observations(hosts, obss), obss) == apply_observations(
            hosts,
            obss,
        ),
    decreases obss.len(),
{
    if obss.len() == 0 {
    } else {
        let o = obss[0];
        let rest = obss.skip(1);
        let u = upsert_hosts(hosts, o);
        let a1 = apply_observations(u, rest);
        assert(a1 == apply_observations(hosts, obss));
        lemma_host_index_props(hosts, o.serial);
        lemma_upsert_frame(hosts, o);
        lemma_upsert_unique(hosts, o);
        assert forall|j: int| 0 <= j < rest.len() implies (#[trigger] rest[j]).serial
            != o.serial by {
            assert(rest[j] == obss[j + 1]);
        }
        lemma_apply_frame(u, rest);
        // The row the observation refreshed or created, in `u` and `a1`.
        let idx0: int = if crate::inventory::host_index(hosts, o.serial) >= 0 {
            crate::inventory::host_index(hosts, o.serial)
        } else {
            hosts.len() as int
        };
        assert(0 <= idx0 < u.len());
        assert(u[idx0].serial == o.serial);
        assert(forall|m: int| 0 <= m < idx0 ==> (#[trigger] u[m]).serial != o.serial);
        assert(a1[idx0] == u[idx0]) by {
            if idx0 < hosts.len() {
                assert(forall|j: int|
                    0 <= j < rest.len() ==> (#[trigger] rest[j]).serial != hosts[idx0].serial);
            } else {
                // the appended row: untouched since no later observation
                // names its serial
                lemma_apply_keeps_new_row(u, rest, idx0);
            }
        }
        assert forall|m: int| 0 <= m < idx0 implies (#[trigger] a1[m]).serial != o.serial by {
            assert(a1[m].serial == u[m].serial);
        }
        crate::inventory::lemma_host_index_found(a1, o.serial, idx0);
        // Refreshing the already-refreshed row changes nothing.
        let refreshed_again = crate::inventory::refreshed_host(a1[idx0], o);
        assert(refreshed_again == a1[idx0]) by {
            if crate::inventory::host_index(hosts, o.serial) >= 0 {
                assert(u[idx0] == crate::inventory::refreshed_host(hosts[idx0], o));
            } else {
                assert(u[idx0] == crate::inventory::created_host(o));
            }
        }
        assert(upsert_hosts(a1, o) =~= a1);
        // With the first observation absorbed, the tail's idempotence
        // closes the proof.
        lemma_discovery_tick_idempotent(u, rest);
        assert(apply_observations(a1, obss) == apply_observations(upsert_hosts(a1, o), rest));
        assert(apply_observations(upsert_hosts(a1, o), rest) == apply_observations(a1, rest));
        assert(apply_observations(a1, rest) == a1);
    }
}

/// A row appended by an observation stays untouched while observations
/// for other serials are recorded.
proof fn lemma_apply_keeps_new_row(hosts: Seq<HostView>, obss: Seq<ObservationView>, m: int)
    requires
        0 <= m < hosts.len(),
        forall|j: int| 0 <= j < obss.len() ==> (#[trigger] obss[j]).serial != hosts[m].serial,
    ensures
        apply_observations(hosts, obss)[m] == hosts[m],
        apply_observations(hosts, obss).len() >= hosts.len(),
{
    lemma_apply_frame(hosts, obss);
}

/// A discovery tick preserves the data-model invariants: every recorded
/// code is from the fixed set, and an observation that reports work under
/// way belongs to a host already in the inventory with a system assigned.
pub proof fn lemma_discovery_tick_preserves_wf(
    inv: crate::inventory::InventoryView,
    obss: Seq<ObservationView>,
)
    requires
        inv.wf(),
        forall|j: int|
            0 <= j < obss.len() ==> is_progress_code((#[trigger] obss[j]).install_progress),
        forall|j: int|
            0 <= j < obss.len() && (#[trigger] obss[j]).install_progress != 0 ==> exists|i: int|
                0 <= i < inv.hosts.len() && (#[trigger] inv.hosts[i]).serial == obss[j].serial
                    && inv.hosts[i].os is Some,
    ensures
        (crate::inventory::InventoryView {
            hosts: apply_observations(inv.hosts, obss),
            ipxe: inv.ipxe,
            install_queue: inv.install_queue,
        }).wf(),
    decreases obss.len(),
{
    if obss.len() == 0 {
    } else {
        let o = obss[0];
        let rest = obss.skip(1);
        let hosts = inv.hosts;
        let u = upsert_hosts(hosts, o);
        lemma_host_index_props(hosts, o.serial);
        lemma_upsert_frame(hosts, o);
        let idx = crate::inventory::host_index(hosts, o.serial);
        if o.install_progress != 0 {
            let w = choose|i: int|
                0 <= i < hosts.len() && (#[trigger] hosts[i]).serial == o.serial
                    && hosts[i].os is Some;
            assert(idx >= 0);
            assert(hosts[idx].serial == o.serial);
            assert(idx == w);
        }
        crate::inventory::lemma_upsert_preserves_wf(inv, o);
        let inv1 = crate::inventory::InventoryView {
            hosts: u,
            ipxe: inv.ipxe,
            install_queue: inv.install_queue,
        };
        // Every later observation's witness survives the first upsert with
        // its system still assigned.
        assert forall|j: int|
            0 <= j < rest.len() && (#[trigger] rest[j]).install_progress != 0 implies exists|
                i: int,
            |
                0 <= i < inv1.hosts.len() && (#[trigger] inv1.hosts[i]).serial == rest[j].serial
                    && inv1.hosts[i].os is Some by {
            assert(rest[j] == obss[j + 1]);
            let w = choose|i: int|
                0 <= i < hosts.len() && (#[trigger] hosts[i]).serial == obss[j + 1].serial
                    && hosts[i].os is Some;
            if hosts[w].serial == o.serial {
                assert(idx >= 0);
                assert(idx == w);
                assert(u[w] == crate::inventory::refreshed_host(hosts[w], o));
                assert(u[w].serial == obss[j + 1].serial && u[w].os is Some);
            } else {
                assert(u[w] == hosts[w]);
            }
            assert(0 <= w < inv1.hosts.len() && inv1.hosts[w].serial == rest[j].serial
                && inv1.hosts[w].os is Some);
        }
        assert forall|j: int| 0 <= j < rest.len() implies is_progress_code(
            (#[trigger] rest[j]).install_progress,
        ) by {
            assert(rest[j] == obss[j + 1]);
        }
        lemma_discovery_tick_preserves_wf(inv1, rest);
        assert(apply_observations(hosts, obss) == apply_observations(u, rest));
    }
}

} // verus!
