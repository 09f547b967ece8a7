use vstd::prelude::*;

verus! {

/// The ports a scanning worker probes from `port` on: each `step` above the last,
/// stopping once no more than `step` ports are left above it.
pub open spec fn ports_from(port: u16, step: u16) -> Seq<u16>
    decreases u16::MAX - port,
{
    if u16::MAX - port <= step || step == 0 {
        seq![port]
    } else {
        seq![port].add(ports_from((port + step) as u16, step))
    }
}

/// The ports that worker `worker` of `threads` probes: it starts at `worker + 1`
/// and strides by `threads`.
pub fn worker_ports(worker: u16, threads: u16) -> (r: Vec<u16>)
    requires
        worker < threads,
    ensures
        r@ == ports_from((worker + 1) as u16, threads),
{
    let mut r: Vec<u16> = Vec::new();
    let mut port: u16 = worker + 1;
    loop
        invariant
            threads > 0,
            r@ + ports_from(port, threads) == ports_from((worker + 1) as u16, threads),
        decreases u16::MAX - port,
    {
        r.push(port);
        if u16::MAX - port <= threads {
            assert(r@ =~= ports_from((worker + 1) as u16, threads));
            return r;
        }
        let ghost before = r@;
        assert(ports_from(port, threads) == seq![port].add(ports_from((port + threads) as u16, threads)));
        port += threads;
        assert(r@ + ports_from(port, threads) =~= before.drop_last() + (seq![before.last()] + ports_from(port, threads)));
    }
}

} // verus!
