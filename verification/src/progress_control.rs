//! The progress loop's decisions: the transitions the controller owns.
//!
//! Each tick the controller attempts three transitions in order:
//! admit queued hosts to installation, reboot acknowledged hosts into
//! kickstart, and configure hosts that have booted into their installed
//! system. The decisions here are pure functions of the inventory and of
//! what came back from the hosts; performing the remote work and feeding
//! its outcome back is the caller's part.

use vstd::prelude::*;

use crate::inventory::Inventory;
use crate::inventory::InventoryView;
use crate::inventory::HostView;
use crate::inventory::IpxeEntry;
use crate::inventory::IpxeEntryView;
use crate::progress::Progress;
use crate::text::bytes_eq;
use crate::text::copy_bytes;
use crate::text::join_with;
use crate::text::lemma_filter_push;
use crate::text::lines_of;
use crate::text::split_lines;
use crate::text::split_on;
use crate::text::trim;
use crate::text::trim_of;
use crate::text::decimal_of;
use crate::text::view_opt;
use crate::text::views_of;

verus! {

// ---------------------------------------------------------------------
// Admission to installation: queued hosts are staged for kickstart.
// ---------------------------------------------------------------------
/// A host admitted to installation this tick: the progress stage is
/// written to it over the command channel, and on success the queue
/// entry is consumed.
pub struct KickstartCandidate {
    /// Address the staged progress is written to.
    pub ip_address: Vec<u8>,
    /// The queue entry that admitted the host.
    pub ipmi_address: Vec<u8>,
}

/// The mathematical value of a [`KickstartCandidate`].
pub struct KickstartCandidateView {
    pub ip_address: Seq<u8>,
    pub ipmi_address: Seq<u8>,
}

impl View for KickstartCandidate {
    type V = KickstartCandidateView;

    open spec fn view(&self) -> KickstartCandidateView {
        KickstartCandidateView { ip_address: self.ip_address@, ipmi_address: self.ipmi_address@ }
    }
}

/// Whether a host qualifies for admission against a queue entry: the
/// entry names its BMC, it has not started installing, an operating
/// system is assigned, and a script is registered for that system.
pub open spec fn qualifies_for_kickstart(
    h: HostView,
    entry: Seq<u8>,
    ipxe: Seq<IpxeEntryView>,
) -> bool {
    &&& h.ipmi_address == entry
    &&& h.install_progress == Progress::NotConfigured.spec_code()
    &&& h.os is Some
    &&& script_registered(ipxe, h.os->Some_0)
}

/// Whether the registry holds a script for this operating system.
pub open spec fn script_registered(ipxe: Seq<IpxeEntryView>, os: Seq<u8>) -> bool {
    exists|k: int| 0 <= k < ipxe.len() && (#[trigger] ipxe[k]).os == os && ipxe[k].script is Some
}

/// The candidates one queue entry yields, in host order.
pub open spec fn entry_candidates(
    hosts: Seq<HostView>,
    entry: Seq<u8>,
    ipxe: Seq<IpxeEntryView>,
) -> Seq<KickstartCandidateView> {
    hosts.filter(|h: HostView| qualifies_for_kickstart(h, entry, ipxe)).map_values(
        |h: HostView| KickstartCandidateView { ip_address: h.ip_address, ipmi_address: entry },
    )
}

/// All of a tick's candidates: queue entries in order, each joined with
/// every qualifying host in host order.
pub open spec fn kickstart_candidates_of(
    hosts: Seq<HostView>,
    queue: Seq<Seq<u8>>,
    ipxe: Seq<IpxeEntryView>,
) -> Seq<KickstartCandidateView>
    decreases queue.len(),
{
    if queue.len() == 0 {
        Seq::empty()
    } else {
        entry_candidates(hosts, queue[0], ipxe) + kickstart_candidates_of(
            hosts,
            queue.skip(1),
            ipxe,
        )
    }
}

fn ipxe_has_script(ipxe: &Vec<IpxeEntry>, os: &Vec<u8>) -> (r: bool)
    ensures
        r == script_registered(ipxe@.map_values(|e: IpxeEntry| e@), os@),
{
    let ghost iv = ipxe@.map_values(|e: IpxeEntry| e@);
    let mut k: usize = 0;
    while k < ipxe.len()
        invariant
            k <= ipxe.len(),
            iv == ipxe@.map_values(|e: IpxeEntry| e@),
            forall|m: int| 0 <= m < k ==> !((#[trigger] iv[m]).os == os@ && iv[m].script is Some),
        decreases ipxe.len() - k,
    {
        let entry = &ipxe[k];
        if entry.script.is_some() && bytes_eq(&entry.os, os) {
            proof {
                assert(iv[k as int].os == os@ && iv[k as int].script is Some);
            }
            return true;
        }
        k = k + 1;
    }
    false
}

impl Inventory {
    /// The hosts to admit to installation this tick, joined from the
    /// pending-install queue, the host rows and the script registry.
    pub fn kickstart_candidates(&self) -> (cands: Vec<KickstartCandidate>)
        ensures
            cands@.map_values(|c: KickstartCandidate| c@) == kickstart_candidates_of(
                self@.hosts,
                self@.install_queue,
                self@.ipxe,
            ),
    {
        let ghost hostsv = self@.hosts;
        let ghost queuev = self@.install_queue;
        let ghost ipxev = self@.ipxe;
        let ghost total = kickstart_candidates_of(hostsv, queuev, ipxev);
        let mut cands: Vec<KickstartCandidate> = Vec::new();
        let mut qi: usize = 0;
        proof {
            assert(queuev.skip(0) =~= queuev);
            assert(cands@.map_values(|c: KickstartCandidate| c@)
                =~= Seq::<KickstartCandidateView>::empty());
            assert(Seq::<KickstartCandidateView>::empty() + kickstart_candidates_of(
                hostsv,
                queuev,
                ipxev,
            ) =~= total);
        }
        while qi < self.install_queue.len()
            invariant
                qi <= self.install_queue.len(),
                hostsv == self@.hosts,
                queuev == self@.install_queue,
                ipxev == self@.ipxe,
                total == kickstart_candidates_of(hostsv, queuev, ipxev),
                total == cands@.map_values(|c: KickstartCandidate| c@)
                    + kickstart_candidates_of(hostsv, queuev.skip(qi as int), ipxev),
            decreases self.install_queue.len() - qi,
        {
            let ghost done = cands@.map_values(|c: KickstartCandidate| c@);
            let ghost entryv = queuev[qi as int];
            proof {
                assert(queuev.skip(qi as int)[0] == entryv);
                assert(queuev.skip(qi as int).skip(1) =~= queuev.skip(qi + 1));
            }
            let mut hi: usize = 0;
            proof {
                assert(hostsv.take(0) =~= Seq::<HostView>::empty());
                reveal(Seq::filter);
                assert(done + entry_candidates(hostsv.take(0), entryv, ipxev) =~= done);
            }
            while hi < self.hosts.len()
                invariant
                    hi <= self.hosts.len(),
                    qi < self.install_queue.len(),
                    hostsv == self@.hosts,
                    queuev == self@.install_queue,
                    ipxev == self@.ipxe,
                    entryv == queuev[qi as int],
                    done + entry_candidates(hostsv.take(hi as int), entryv, ipxev)
                        == cands@.map_values(|c: KickstartCandidate| c@),
                decreases self.hosts.len() - hi,
            {
                let ghost taken = hostsv.take(hi as int);
                proof {
                    assert(hostsv.take(hi + 1).drop_last() =~= taken);
                    assert(hostsv.take(hi + 1) =~= taken.push(hostsv[hi as int]));
                    lemma_filter_push(
                        taken,
                        |h: HostView| qualifies_for_kickstart(h, entryv, ipxev),
                        hostsv[hi as int],
                    );
                }
                let h = &self.hosts[hi];
                let queue_entry = &self.install_queue[qi];
                let qualifies = h.install_progress == 0 && bytes_eq(&h.ipmi_address, queue_entry)
                    && match &h.os {
                    Some(os) => ipxe_has_script(&self.ipxe, os),
                    None => false,
                };
                proof {
                    assert(qualifies == qualifies_for_kickstart(hostsv[hi as int], entryv, ipxev));
                }
                if qualifies {
                    let ghost pre = cands@.map_values(|c: KickstartCandidate| c@);
                    let cand = KickstartCandidate {
                        ip_address: copy_bytes(&h.ip_address),
                        ipmi_address: copy_bytes(queue_entry),
                    };
                    let ghost candv = cand@;
                    cands.push(cand);
                    proof {
                        assert(cands@.map_values(|c: KickstartCandidate| c@) =~= pre.push(candv));
                        assert(taken.push(hostsv[hi as int]).filter(
                            |h: HostView| qualifies_for_kickstart(h, entryv, ipxev),
                        ).map_values(
                            |h: HostView| KickstartCandidateView {
                                ip_address: h.ip_address,
                                ipmi_address: entryv,
                            },
                        ) =~= taken.filter(
                            |h: HostView| qualifies_for_kickstart(h, entryv, ipxev),
                        ).map_values(
                            |h: HostView| KickstartCandidateView {
                                ip_address: h.ip_address,
                                ipmi_address: entryv,
                            },
                        ).push(candv));
                        assert(done + entry_candidates(hostsv.take(hi + 1), entryv, ipxev)
                            =~= (done + entry_candidates(taken, entryv, ipxev)).push(candv));
                    }
                } else {
                    proof {
                        assert(entry_candidates(hostsv.take(hi + 1), entryv, ipxev)
                            =~= entry_candidates(taken, entryv, ipxev));
                    }
                }
                hi = hi + 1;
            }
            proof {
                assert(hostsv.take(hostsv.len() as int) =~= hostsv);
                assert(done + (entry_candidates(hostsv, entryv, ipxev) + kickstart_candidates_of(
                    hostsv,
                    queuev.skip(qi + 1),
                    ipxev,
                )) =~= (done + entry_candidates(hostsv, entryv, ipxev))
                    + kickstart_candidates_of(hostsv, queuev.skip(qi + 1), ipxev));
            }
            qi = qi + 1;
        }
        proof {
            assert(queuev.skip(queuev.len() as int) =~= Seq::<Seq<u8>>::empty());
            assert(cands@.map_values(|c: KickstartCandidate| c@)
                + kickstart_candidates_of(hostsv, Seq::empty(), ipxev)
                =~= cands@.map_values(|c: KickstartCandidate| c@));
        }
        cands
    }
}

/// The queue after consuming, in order, the entry of every candidate
/// whose staging write succeeded.
pub open spec fn queue_after_admissions(
    queue: Seq<Seq<u8>>,
    cands: Seq<KickstartCandidateView>,
    ok: Seq<bool>,
) -> Seq<Seq<u8>>
    decreases cands.len(),
{
    if cands.len() == 0 {
        queue
    } else {
        let next = if ok[0] {
            crate::inventory::queue_without(queue, cands[0].ipmi_address)
        } else {
            queue
        };
        queue_after_admissions(next, cands.skip(1), ok.skip(1))
    }
}

impl Inventory {
    /// Consume the queue entry of every candidate whose staging write
    /// succeeded; host rows and the registry are untouched.
    pub fn apply_kickstart_outcomes(
        &mut self,
        cands: &Vec<KickstartCandidate>,
        ok: &Vec<bool>,
    )
        requires
            cands@.len() == ok@.len(),
        ensures
            final(self)@.install_queue == queue_after_admissions(
                old(self)@.install_queue,
                cands@.map_values(|c: KickstartCandidate| c@),
                ok@,
            ),
            final(self)@.hosts == old(self)@.hosts,
            final(self)@.ipxe == old(self)@.ipxe,
    {
        let ghost candsv = cands@.map_values(|c: KickstartCandidate| c@);
        let ghost target = queue_after_admissions(old(self)@.install_queue, candsv, ok@);
        let mut i: usize = 0;
        proof {
            assert(candsv.skip(0) =~= candsv);
            assert(ok@.skip(0) =~= ok@);
        }
        while i < cands.len()
            invariant
                i <= cands.len(),
                cands@.len() == ok@.len(),
                candsv == cands@.map_values(|c: KickstartCandidate| c@),
                target == queue_after_admissions(old(self)@.install_queue, candsv, ok@),
                target == queue_after_admissions(
                    self@.install_queue,
                    candsv.skip(i as int),
                    ok@.skip(i as int),
                ),
                self@.hosts == old(self)@.hosts,
                self@.ipxe == old(self)@.ipxe,
            decreases cands.len() - i,
        {
            proof {
                assert(candsv.skip(i as int)[0] == candsv[i as int]);
                assert(candsv.skip(i as int).skip(1) =~= candsv.skip(i + 1));
                assert(ok@.skip(i as int)[0] == ok@[i as int]);
                assert(ok@.skip(i as int).skip(1) =~= ok@.skip(i + 1));
            }
            if ok[i] {
                self.delete_install_queue_entry(&cands[i].ipmi_address);
                proof {
                    assert(cands@[i as int]@ == candsv[i as int]);
                }
            }
            i = i + 1;
        }
        proof {
            assert(candsv.skip(candsv.len() as int) =~= Seq::<KickstartCandidateView>::empty());
            assert(ok@.skip(ok@.len() as int) =~= Seq::<bool>::empty());
        }
    }
}

// ---------------------------------------------------------------------
// Reboot into kickstart: staged hosts that acknowledged the stage.
// ---------------------------------------------------------------------
/// Whether a host row is polled for a kickstart acknowledgement: it is
/// staged for the kickstart reboot and has an operating system assigned.
pub open spec fn awaiting_reboot(h: HostView) -> bool {
    h.install_progress == Progress::RebootingToKickstart.spec_code() && h.os is Some
}

impl Inventory {
    /// Addresses of the hosts to poll for a kickstart acknowledgement.
    pub fn reboot_poll_targets(&self) -> (ips: Vec<Vec<u8>>)
        ensures
            views_of(ips@) == self@.hosts.filter(|h: HostView| awaiting_reboot(h)).map_values(
                |h: HostView| h.ip_address,
            ),
    {
        let ghost hostsv = self@.hosts;
        let mut ips: Vec<Vec<u8>> = Vec::new();
        let mut i: usize = 0;
        proof {
            reveal(Seq::filter);
            assert(hostsv.take(0) =~= Seq::<HostView>::empty());
            assert(views_of(ips@) =~= hostsv.take(0).filter(
                |h: HostView| awaiting_reboot(h),
            ).map_values(|h: HostView| h.ip_address));
        }
        while i < self.hosts.len()
            invariant
                i <= self.hosts.len(),
                hostsv == self@.hosts,
                views_of(ips@) == hostsv.take(i as int).filter(
                    |h: HostView| awaiting_reboot(h),
                ).map_values(|h: HostView| h.ip_address),
            decreases self.hosts.len() - i,
        {
            let ghost taken = hostsv.take(i as int);
            proof {
                assert(hostsv.take(i + 1).drop_last() =~= taken);
                assert(hostsv.take(i + 1) =~= taken.push(hostsv[i as int]));
                lemma_filter_push(taken, |h: HostView| awaiting_reboot(h), hostsv[i as int]);
            }
            let h = &self.hosts[i];
            if h.install_progress == 5 && h.os.is_some() {
                let ghost pre = views_of(ips@);
                let ip = copy_bytes(&h.ip_address);
                let ghost ipv = ip@;
                ips.push(ip);
                proof {
                    assert(views_of(ips@) =~= pre.push(ipv));
                    assert(taken.push(hostsv[i as int]).filter(
                        |h: HostView| awaiting_reboot(h),
                    ).map_values(|h: HostView| h.ip_address) =~= taken.filter(
                        |h: HostView| awaiting_reboot(h),
                    ).map_values(|h: HostView| h.ip_address).push(ipv));
                }
            } else {
                proof {
                    assert(hostsv.take(i + 1).filter(|h: HostView| awaiting_reboot(h)).map_values(
                        |h: HostView| h.ip_address,
                    ) =~= taken.filter(|h: HostView| awaiting_reboot(h)).map_values(
                        |h: HostView| h.ip_address,
                    ));
                }
            }
            i = i + 1;
        }
        proof {
            assert(hostsv.take(hostsv.len() as int) =~= hostsv);
        }
        ips
    }
}

/// Whether the acknowledgement text read back from a host warrants the
/// reboot command: present and, once trimmed, exactly the decimal text
/// of the staged progress code.
pub open spec fn reboot_decision(ack: Option<Seq<u8>>) -> bool {
    match ack {
        Some(a) => trim_of(a) == decimal_of(Progress::RebootingToKickstart.spec_code()),
        None => false,
    }
}

/// Decide from the acknowledgement read whether to reboot the host; a
/// missing or different acknowledgement leaves the host alone.
pub fn should_reboot(ack: &Option<Vec<u8>>) -> (r: bool)
    ensures
        r == reboot_decision(view_opt(*ack)),
{
    proof {
        assert(decimal_of(Progress::RebootingToKickstart.spec_code()) =~= seq![53u8]);
    }
    match ack {
        Some(a) => {
            let t = trim(a);
            let r = t.len() == 1 && t[0] == 53;
            proof {
                if r {
                    assert(t@ =~= seq![53u8]);
                } else if t@ == seq![53u8] {
                    assert(t@.len() == 1 && t@[0] == 53);
                    assert(false);
                }
            }
            r
        },
        None => false,
    }
}

// ---------------------------------------------------------------------
// Post-install configuration: hosts that rebooted into their system.
// ---------------------------------------------------------------------
/// A host ready for post-install network configuration, with everything
/// the configuration needs known.
pub struct PostInstallHost {
    pub ip_address: Vec<u8>,
    pub hostname: Vec<u8>,
    pub public_ip_addr: Vec<u8>,
    pub vlan_id: u32,
}

/// The mathematical value of a [`PostInstallHost`].
pub struct PostInstallHostView {
    pub ip_address: Seq<u8>,
    pub hostname: Seq<u8>,
    pub public_ip_addr: Seq<u8>,
    pub vlan_id: u32,
}

impl View for PostInstallHost {
    type V = PostInstallHostView;

    open spec fn view(&self) -> PostInstallHostView {
        PostInstallHostView {
            ip_address: self.ip_address@,
            hostname: self.hostname@,
            public_ip_addr: self.public_ip_addr@,
            vlan_id: self.vlan_id,
        }
    }
}

/// Whether a host row is configured after installation: it has booted
/// into the installed system, an operating system is assigned, and the
/// name, production address and VLAN to configure are all known.
pub open spec fn ready_for_configuration(h: HostView) -> bool {
    &&& h.install_progress == Progress::RebootedToSystem.spec_code()
    &&& h.os is Some
    &&& h.hostname is Some
    &&& h.public_ip_addr is Some
    &&& h.vlan_id is Some
}

/// The projection of a ready host row onto what configuration needs.
pub open spec fn configuration_view(h: HostView) -> PostInstallHostView {
    PostInstallHostView {
        ip_address: h.ip_address,
        hostname: h.hostname->Some_0,
        public_ip_addr: h.public_ip_addr->Some_0,
        vlan_id: h.vlan_id->Some_0,
    }
}

impl Inventory {
    /// The hosts to configure after installation this tick.
    pub fn postinstall_targets(&self) -> (targets: Vec<PostInstallHost>)
        ensures
            targets@.map_values(|t: PostInstallHost| t@) == self@.hosts.filter(
                |h: HostView| ready_for_configuration(h),
            ).map_values(|h: HostView| configuration_view(h)),
    {
        let ghost hostsv = self@.hosts;
        let mut targets: Vec<PostInstallHost> = Vec::new();
        let mut i: usize = 0;
        proof {
            reveal(Seq::filter);
            assert(hostsv.take(0) =~= Seq::<HostView>::empty());
            assert(targets@.map_values(|t: PostInstallHost| t@) =~= hostsv.take(0).filter(
                |h: HostView| ready_for_configuration(h),
            ).map_values(|h: HostView| configuration_view(h)));
        }
        while i < self.hosts.len()
            invariant
                i <= self.hosts.len(),
                hostsv == self@.hosts,
                targets@.map_values(|t: PostInstallHost| t@) == hostsv.take(i as int).filter(
                    |h: HostView| ready_for_configuration(h),
                ).map_values(|h: HostView| configuration_view(h)),
            decreases self.hosts.len() - i,
        {
            let ghost taken = hostsv.take(i as int);
            proof {
                assert(hostsv.take(i + 1).drop_last() =~= taken);
                assert(hostsv.take(i + 1) =~= taken.push(hostsv[i as int]));
                lemma_filter_push(
                    taken,
                    |h: HostView| ready_for_configuration(h),
                    hostsv[i as int],
                );
            }
            let h = &self.hosts[i];
            let ready = h.install_progress == 85 && h.os.is_some() && h.hostname.is_some()
                && h.public_ip_addr.is_some() && h.vlan_id.is_some();
            if ready {
                let ghost pre = targets@.map_values(|t: PostInstallHost| t@);
                let target = PostInstallHost {
                    ip_address: copy_bytes(&h.ip_address),
                    hostname: match &h.hostname {
                        Some(n) => copy_bytes(n),
                        None => Vec::new(),
                    },
                    public_ip_addr: match &h.public_ip_addr {
                        Some(p) => copy_bytes(p),
                        None => Vec::new(),
                    },
                    vlan_id: match h.vlan_id {
                        Some(v) => v,
                        None => 0,
                    },
                };
                let ghost tv = target@;
                proof {
                    assert(tv == configuration_view(hostsv[i as int]));
                }
                targets.push(target);
                proof {
                    assert(targets@.map_values(|t: PostInstallHost| t@) =~= pre.push(tv));
                    assert(taken.push(hostsv[i as int]).filter(
                        |h: HostView| ready_for_configuration(h),
                    ).map_values(|h: HostView| configuration_view(h)) =~= taken.filter(
                        |h: HostView| ready_for_configuration(h),
                    ).map_values(|h: HostView| configuration_view(h)).push(tv));
                }
            } else {
                proof {
                    assert(hostsv.take(i + 1).filter(
                        |h: HostView| ready_for_configuration(h),
                    ).map_values(|h: HostView| configuration_view(h)) =~= taken.filter(
                        |h: HostView| ready_for_configuration(h),
                    ).map_values(|h: HostView| configuration_view(h)));
                }
            }
            i = i + 1;
        }
        proof {
            assert(hostsv.take(hostsv.len() as int) =~= hostsv);
        }
        targets
    }

    /// Mark every host with this production address as done; called when
    /// the controller's reachability probe of the address succeeded.
    pub fn complete_post_install(&mut self, public_ip: &Vec<u8>)
        ensures
            final(self)@.hosts == crate::inventory::with_progress_where_public_ip(
                old(self)@.hosts,
                public_ip@,
                Progress::Done.spec_code(),
            ),
            final(self)@.ipxe == old(self)@.ipxe,
            final(self)@.install_queue == old(self)@.install_queue,
    {
        let code = Progress::Done.code();
        self.update_progress_where_public_ip(public_ip, code);
    }
}

/// The bond members chosen from the fibre-interface probe output: both
/// lines when the probe listed two interfaces, the first and third when
/// it listed four, and the line count as the error otherwise.
pub open spec fn bond_nics_of(output: Seq<u8>) -> Result<(Seq<u8>, Seq<u8>), int> {
    let ls = lines_of(output);
    if ls.len() == 2 {
        Ok((trim_of(ls[0]), trim_of(ls[1])))
    } else if ls.len() == 4 {
        Ok((trim_of(ls[0]), trim_of(ls[2])))
    } else {
        Err(ls.len() as int)
    }
}

/// Choose the two bond members from the fibre-interface probe output; any
/// line count other than two or four is an error carrying that count.
pub fn select_bond_nics(output: &Vec<u8>) -> (r: Result<(Vec<u8>, Vec<u8>), usize>)
    ensures
        match r {
            Ok(pair) => bond_nics_of(output@) == Ok::<_, int>((pair.0@, pair.1@)),
            Err(n) => bond_nics_of(output@) == Err::<(Seq<u8>, Seq<u8>), int>(n as int),
        },
{
    let lines = split_lines(output);
    if lines.len() == 2 {
        Ok((trim(&lines[0]), trim(&lines[1])))
    } else if lines.len() == 4 {
        Ok((trim(&lines[0]), trim(&lines[2])))
    } else {
        Err(lines.len())
    }
}

// ---------------------------------------------------------------------
// What admission guarantees.
// ---------------------------------------------------------------------
/// Admission only removes queue entries: whatever remains was queued.
pub proof fn lemma_admissions_only_remove(
    queue: Seq<Seq<u8>>,
    cands: Seq<KickstartCandidateView>,
    ok: Seq<bool>,
    x: Seq<u8>,
)
    requires
        cands.len() == ok.len(),
    ensures
        queue_after_admissions(queue, cands, ok).contains(x) ==> queue.contains(x),
    decreases cands.len(),
{
    if cands.len() == 0 {
    } else {
        let next = if ok[0] {
            crate::inventory::queue_without(queue, cands[0].ipmi_address)
        } else {
            queue
        };
        lemma_admissions_only_remove(next, cands.skip(1), ok.skip(1), x);
        if ok[0] {
            crate::inventory::lemma_queue_without_membership(
                queue,
                cands[0].ipmi_address,
                x,
            );
        }
    }
}

/// A successfully admitted candidate's BMC address no longer appears in
/// the queue once the tick's outcomes are applied.
pub proof fn lemma_admitted_not_queued(
    queue: Seq<Seq<u8>>,
    cands: Seq<KickstartCandidateView>,
    ok: Seq<bool>,
    j: int,
)
    requires
        cands.len() == ok.len(),
        0 <= j < cands.len(),
        ok[j],
    ensures
        !queue_after_admissions(queue, cands, ok).contains(cands[j].ipmi_address),
    decreases cands.len(),
{
    let next = if ok[0] {
        crate::inventory::queue_without(queue, cands[0].ipmi_address)
    } else {
        queue
    };
    if j == 0 {
        lemma_admissions_only_remove(next, cands.skip(1), ok.skip(1), cands[0].ipmi_address);
        crate::inventory::lemma_queue_without_membership(
            queue,
            cands[0].ipmi_address,
            cands[0].ipmi_address,
        );
    } else {
        lemma_admitted_not_queued(next, cands.skip(1), ok.skip(1), j - 1);
        assert(cands.skip(1)[j - 1] == cands[j]);
    }
}

/// A queue entry with at least one qualifying host yields a candidate
/// carrying that entry as its BMC address.
proof fn lemma_entry_yields_candidate(
    hosts: Seq<HostView>,
    queue: Seq<Seq<u8>>,
    ipxe: Seq<IpxeEntryView>,
    qi: int,
)
    requires
        0 <= qi < queue.len(),
        entry_candidates(hosts, queue[qi], ipxe).len() > 0,
    ensures
        exists|j: int|
            0 <= j < kickstart_candidates_of(hosts, queue, ipxe).len()
                && (#[trigger] kickstart_candidates_of(hosts, queue, ipxe)[j]).ipmi_address
                == queue[qi],
    decreases qi,
{
    let total = kickstart_candidates_of(hosts, queue, ipxe);
    if qi == 0 {
        let ec = entry_candidates(hosts, queue[0], ipxe);
        assert(ec[0].ipmi_address == queue[0]);
        assert(total[0] == ec[0]);
    } else {
        lemma_entry_yields_candidate(hosts, queue.skip(1), ipxe, qi - 1);
        let rest = kickstart_candidates_of(hosts, queue.skip(1), ipxe);
        let j = choose|j: int|
            0 <= j < rest.len() && (#[trigger] rest[j]).ipmi_address == queue.skip(1)[qi - 1];
        let ec = entry_candidates(hosts, queue[0], ipxe);
        assert(total[ec.len() + j] == rest[j]);
        assert(queue.skip(1)[qi - 1] == queue[qi]);
    }
}

/// A queue none of whose entries has a qualifying host yields no
/// candidates.
proof fn lemma_no_candidates(hosts: Seq<HostView>, queue: Seq<Seq<u8>>, ipxe: Seq<IpxeEntryView>)
    requires
        forall|qi: int|
            0 <= qi < queue.len() ==> entry_candidates(hosts, #[trigger] queue[qi], ipxe).len()
                == 0,
    ensures
        kickstart_candidates_of(hosts, queue, ipxe) == Seq::<KickstartCandidateView>::empty(),
    decreases queue.len(),
{
    if queue.len() == 0 {
    } else {
        assert forall|qi: int| 0 <= qi < queue.skip(1).len() implies entry_candidates(
            hosts,
            #[trigger] queue.skip(1)[qi],
            ipxe,
        ).len() == 0 by {
            assert(queue.skip(1)[qi] == queue[qi + 1]);
        }
        lemma_no_candidates(hosts, queue.skip(1), ipxe);
        assert(kickstart_candidates_of(hosts, queue, ipxe) =~= Seq::<
            KickstartCandidateView,
        >::empty());
    }
}

/// Admission is idempotent: when every staging write of a tick succeeds,
/// the next tick finds no candidate and leaves the queue unchanged.
pub proof fn lemma_admission_tick_idempotent(inv: InventoryView)
    ensures
        ({
            let cands = kickstart_candidates_of(inv.hosts, inv.install_queue, inv.ipxe);
            let all_ok = Seq::new(cands.len(), |j: int| true);
            let q1 = queue_after_admissions(inv.install_queue, cands, all_ok);
            &&& kickstart_candidates_of(inv.hosts, q1, inv.ipxe) == Seq::<
                KickstartCandidateView,
            >::empty()
            &&& queue_after_admissions(
                q1,
                kickstart_candidates_of(inv.hosts, q1, inv.ipxe),
                Seq::empty(),
            ) == q1
        }),
{
    let cands = kickstart_candidates_of(inv.hosts, inv.install_queue, inv.ipxe);
    let all_ok = Seq::new(cands.len(), |j: int| true);
    let q1 = queue_after_admissions(inv.install_queue, cands, all_ok);
    assert forall|qi: int| 0 <= qi < q1.len() implies entry_candidates(
        inv.hosts,
        #[trigger] q1[qi],
        inv.ipxe,
    ).len() == 0 by {
        let e = q1[qi];
        assert(q1.contains(e));
        lemma_admissions_only_remove(inv.install_queue, cands, all_ok, e);
        if entry_candidates(inv.hosts, e, inv.ipxe).len() > 0 {
            let orig = choose|m: int|
                0 <= m < inv.install_queue.len() && inv.install_queue[m] == e;
            lemma_entry_yields_candidate(inv.hosts, inv.install_queue, inv.ipxe, orig);
            let j = choose|j: int|
                0 <= j < cands.len() && (#[trigger] cands[j]).ipmi_address == e;
            lemma_admitted_not_queued(inv.install_queue, cands, all_ok, j);
            assert(false);
        }
    }
    lemma_no_candidates(inv.hosts, q1, inv.ipxe);
}

/// The gateway derived from a production address: its first three
/// dot-separated pieces joined with dots, then `.1`.
pub open spec fn gateway_of(public_ip: Seq<u8>) -> Seq<u8> {
    let parts = split_on(public_ip, 46);
    let kept = if parts.len() >= 3 {
        parts.take(3)
    } else {
        parts
    };
    join_with(kept, 46) + seq![46u8, 49u8]
}

/// Derive the gateway for a production address.
pub fn derive_gateway(public_ip: &Vec<u8>) -> (r: Vec<u8>)
    ensures
        r@ == gateway_of(public_ip@),
{
    let parts = crate::text::split_on_byte(public_ip, 46);
    let ghost partsv = views_of(parts@);
    let upto: usize = if parts.len() >= 3 {
        3
    } else {
        parts.len()
    };
    let mut kept: Vec<Vec<u8>> = Vec::new();
    let mut i: usize = 0;
    proof {
        assert(views_of(kept@) =~= partsv.take(0));
    }
    while i < upto
        invariant
            i <= upto <= parts.len(),
            partsv == views_of(parts@),
            views_of(kept@) == partsv.take(i as int),
        decreases upto - i,
    {
        let ghost pre = views_of(kept@);
        let piece = copy_bytes(&parts[i]);
        let ghost pv = piece@;
        kept.push(piece);
        proof {
            assert(views_of(kept@) =~= pre.push(pv));
            assert(partsv.take(i + 1) =~= partsv.take(i as int).push(partsv[i as int]));
        }
        i = i + 1;
    }
    let mut r = crate::text::join_from(&kept, 0, 46);
    proof {
        assert(views_of(kept@).skip(0) =~= views_of(kept@));
        assert(views_of(kept@) =~= (if partsv.len() >= 3 {
            partsv.take(3)
        } else {
            partsv
        }));
        assert(partsv.len() < 3 ==> partsv.take(partsv.len() as int) =~= partsv);
    }
    r.push(46);
    r.push(49);
    proof {
        assert(r@ =~= gateway_of(public_ip@));
    }
    r
}

} // verus!
