//! Layer-2 forwarding: ports are paired, the pairs are spread over the
//! cores, and each core forwards what its queues receive.

use crate::ids::LCoreId;
use crate::port::Port;
use crate::queue::{min, take_front, RxQ, TxQ};
use vstd::prelude::*;

verus! {

/// Traffic that arrives on `src` leaves on `dst`.
#[derive(Debug)]
pub struct ForwardDesc {
    pub src: RxQ,
    pub dst: TxQ,
}

/// A port with its first receive and its first transmit queue.
#[derive(Debug)]
pub struct PortWithQueues {
    pub port: Port,
    pub rx: RxQ,
    pub tx: TxQ,
}

/// The place of the port to which the port at the place `i` of `n` ports
/// forwards: its neighbour in the pair, or itself where it has none.
pub open spec fn partner(i: int, n: int) -> int {
    if i % 2 == 1 {
        i - 1
    } else if i + 1 < n {
        i + 1
    } else {
        i
    }
}

/// Pairs the ports in their order: the first forwards to the second and
/// the second to the first, and so on; a port that is left over forwards
/// to itself. The answer holds one descriptor for each port, in the order
/// of the ports.
pub fn pair_ports(ports: Vec<PortWithQueues>) -> (fwds: Vec<ForwardDesc>)
    ensures
        fwds@.len() == ports@.len(),
        forall|i: int|
            0 <= i < fwds@.len() ==> (#[trigger] fwds@[i]).src == ports@[i].rx && fwds@[i].dst
                == ports@[partner(i, ports@.len() as int)].tx,
{
    let ghost all = ports@;
    let ghost n = ports@.len() as int;
    let mut left = ports;
    let mut fwds: Vec<ForwardDesc> = Vec::new();
    while left.len() > 0
        invariant
            all == ports@,
            n == all.len(),
            fwds@.len() + left@.len() == n,
            fwds@.len() % 2 == 0,
            left@ == all.subrange(fwds@.len() as int, n),
            forall|i: int|
                0 <= i < fwds@.len() ==> (#[trigger] fwds@[i]).src == all[i].rx && fwds@[i].dst
                    == all[partner(i, n)].tx,
        decreases left@.len(),
    {
        let ghost k = fwds@.len() as int;
        let ghost done = fwds@;
        let port1 = left.remove(0);
        assert(port1 == all[k]);
        if left.len() > 0 {
            let port2 = left.remove(0);
            assert(port2 == all[k + 1]);
            fwds.push(ForwardDesc { src: port1.rx, dst: port2.tx });
            fwds.push(ForwardDesc { src: port2.rx, dst: port1.tx });
            proof {
                assert(left@ =~= all.subrange(k + 2, n));
                assert forall|i: int| 0 <= i < k + 2 implies (#[trigger] fwds@[i]).src
                    == all[i].rx && fwds@[i].dst == all[partner(i, n)].tx by {
                    if i < k {
                        assert(fwds@[i] == done[i]);
                    }
                }
            }
        } else {
            fwds.push(ForwardDesc { src: port1.rx, dst: port1.tx });
            proof {
                assert(left@ =~= all.subrange(k + 1, n));
                assert forall|i: int| 0 <= i < k + 1 implies (#[trigger] fwds@[i]).src
                    == all[i].rx && fwds@[i].dst == all[partner(i, n)].tx by {
                    if i < k {
                        assert(fwds@[i] == done[i]);
                    }
                }
            }
            return fwds;
        }
    }
    fwds
}

/// The number of groups of at most `q` that `n` items make.
pub open spec fn chunks(n: int, q: int) -> int {
    (n + q - 1) / q
}

/// Where the share of the core at the place `c` begins, among the
/// descriptors.
pub open spec fn share_start(c: int, q: int) -> int {
    c * q
}

/// Where the share of the core at the place `c` of `cores` ends, among `n`
/// descriptors: a core takes `q` of them, and the last core takes all
/// that are left.
pub open spec fn share_end(c: int, q: int, n: int, cores: int) -> int {
    if c == cores - 1 {
        n
    } else {
        min((c + 1) * q, n)
    }
}

/// The core at the place `c` has a full share: `q` descriptors, which all
/// lie before the place `done`.
pub open spec fn full_share(
    r: Seq<(LCoreId, Vec<ForwardDesc>)>,
    all: Seq<ForwardDesc>,
    q: int,
    c: int,
    done: int,
) -> bool {
    r[c].1@ == all.subrange(c * q, (c + 1) * q) && (c + 1) * q <= done
}

/// Spreads the descriptors over the cores, `queues_per_lcore` to each in
/// the order of the cores. Where the cores run out, the last takes all
/// that are left. A core for which nothing is left is not in the answer.
pub fn assign_work(lcores: Vec<LCoreId>, fwds: Vec<ForwardDesc>, queues_per_lcore: usize) -> (r:
    Vec<(LCoreId, Vec<ForwardDesc>)>)
    requires
        queues_per_lcore > 0,
        lcores@.len() > 0 || fwds@.len() == 0,
    ensures
        r@.len() == min(
            lcores@.len() as int,
            chunks(fwds@.len() as int, queues_per_lcore as int),
        ),
        forall|c: int|
            0 <= c < r@.len() ==> (#[trigger] r@[c]).0 == lcores@[c] && r@[c].1@ == fwds@.subrange(
                share_start(c, queues_per_lcore as int),
                share_end(
                    c,
                    queues_per_lcore as int,
                    fwds@.len() as int,
                    lcores@.len() as int,
                ),
            ),
{
    let ghost all = fwds@;
    let ghost n = fwds@.len() as int;
    let ghost q = queues_per_lcore as int;
    let ncores = lcores.len();
    let mut rest = fwds;
    let mut r: Vec<(LCoreId, Vec<ForwardDesc>)> = Vec::new();
    while rest.len() > 0
        invariant
            n == all.len(),
            q == queues_per_lcore,
            q > 0,
            ncores == lcores@.len(),
            ncores > 0 || n == 0,
            rest@.len() <= n,
            rest@ == all.subrange(n - rest@.len(), n),
            r@.len() <= ncores,
            r@.len() == 0 ==> rest@.len() == n,
            r@.len() > 0 ==> (r@.len() - 1) * q < n - rest@.len(),
            r@.len() < ncores ==> n - rest@.len() <= r@.len() * q,
            rest@.len() > 0 && r@.len() < ncores ==> n - rest@.len() == r@.len() * q,
            forall|c: int| 0 <= c < r@.len() ==> (#[trigger] r@[c]).0 == lcores@[c],
            forall|c: int|
                0 <= c < r@.len() - 1 ==> #[trigger] full_share(r@, all, q, c, n - rest@.len()),
            r@.len() > 0 ==> r@[r@.len() - 1].1@ == all.subrange(
                (r@.len() - 1) * q,
                n - rest@.len(),
            ),
        decreases rest@.len(),
    {
        let ghost done = n - rest@.len();
        let ghost groups = r@;
        let ghost g = r@.len() as int;
        let take = if rest.len() < queues_per_lcore {
            rest.len()
        } else {
            queues_per_lcore
        };
        let mut local_fwds = take_front(&mut rest, take);
        proof {
            assert(local_fwds@ =~= all.subrange(done, done + take));
            assert(rest@ =~= all.subrange(done + take, n));
            assert((g + 1) * q == g * q + q) by (nonlinear_arith);
            assert((g - 1) * q == g * q - q) by (nonlinear_arith);
        }
        if r.len() < ncores {
            let core = lcores[r.len()];
            r.push((core, local_fwds));
            proof {
                assert(done == g * q);
                assert forall|c: int| 0 <= c < g + 1 implies (#[trigger] r@[c]).0
                    == lcores@[c] by {
                    if c < g {
                        assert(r@[c] == groups[c]);
                    }
                }
                assert forall|c: int| 0 <= c < g implies #[trigger] full_share(
                    r@,
                    all,
                    q,
                    c,
                    done + take,
                ) by {
                    assert(r@[c] == groups[c]);
                    if c == g - 1 {
                        assert(groups[g - 1].1@ == all.subrange((g - 1) * q, done));
                        assert((c + 1) * q == g * q);
                    } else {
                        assert(full_share(groups, all, q, c, done));
                    }
                }
            }
        } else {
            let last = r.pop();
            let (core, mut mine) = last.unwrap();
            mine.append(&mut local_fwds);
            proof {
                assert(mine@ =~= all.subrange((g - 1) * q, done + take));
            }
            r.push((core, mine));
            proof {
                assert forall|c: int| 0 <= c < g implies (#[trigger] r@[c]).0 == lcores@[c] by {
                    if c < g - 1 {
                        assert(r@[c] == groups[c]);
                    } else {
                        assert(core == groups[g - 1].0);
                    }
                }
                assert forall|c: int| 0 <= c < g - 1 implies #[trigger] full_share(
                    r@,
                    all,
                    q,
                    c,
                    done + take,
                ) by {
                    assert(r@[c] == groups[c]);
                    assert(full_share(groups, all, q, c, done));
                }
            }
        }
        assert(n - rest@.len() == done + take);
    }
    proof {
        let g = r@.len() as int;
        lemma_chunks(n, q, g, ncores as int);
        assert forall|c: int| 0 <= c < g implies (#[trigger] r@[c]).1@ == all.subrange(
            share_start(c, q),
            share_end(c, q, n, ncores as int),
        ) by {
            assert((g - 1) * q + q == g * q) by (nonlinear_arith);
            if c < g - 1 {
                assert(full_share(r@, all, q, c, n));
            }
        }
    }
    r
}

/// The number of groups that were made is the number of groups that the
/// descriptors make, as far as there are cores for them.
proof fn lemma_chunks(n: int, q: int, g: int, cores: int)
    requires
        q > 0,
        n >= 0,
        0 <= g <= cores,
        g == 0 ==> n == 0,
        g > 0 ==> (g - 1) * q < n,
        g < cores ==> n <= g * q,
    ensures
        g == min(cores, chunks(n, q)),
{
    if g == 0 {
        assert(chunks(0, q) == 0) by (nonlinear_arith)
            requires
                q > 0,
        ;
    } else if g < cores {
        assert((n + q - 1) / q == g) by (nonlinear_arith)
            requires
                q > 0,
                (g - 1) * q < n,
                n <= g * q,
        ;
    } else {
        assert((n + q - 1) / q >= g) by (nonlinear_arith)
            requires
                q > 0,
                (g - 1) * q < n,
        ;
    }
}

} // verus!
