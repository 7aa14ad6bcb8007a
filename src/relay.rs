use vstd::prelude::*;
use crate::registry::SessionStruct;

verus! {

/// One datagram to send: the bytes and the address they go to.
#[derive(Debug)]
pub struct Delivery {
    pub address: String,
    pub payload: Vec<u8>,
}

/// The deliveries that relay the datagrams of `updates`, in ingestion order, to each
/// address of the roster in roster order: delivery `d * n + a` sends datagram `d`,
/// unchanged, to roster address `a`, where `n` is the roster size. Each delivery
/// stands alone: one that fails does not hold back the others.
pub fn send_positions(session: &SessionStruct, updates: &Vec<Vec<u8>>) -> (r: Vec<Delivery>)
    requires
        updates@.len() * session@.len() <= usize::MAX,
    ensures
        r@.len() == updates@.len() * session@.len(),
        forall|d: int, a: int| 0 <= d < updates@.len() && 0 <= a < session@.len() ==>
            (#[trigger] r@[d * session@.len() + a]).payload@ == updates@[d]@
            && r@[d * session@.len() + a].address@ == session@[a].1,
{
    let addresses = session.addresses();
    let n = addresses.len();
    let mut r: Vec<Delivery> = Vec::new();
    let mut d: usize = 0;
    while d < updates.len()
        invariant
            d <= updates@.len(),
            n == session@.len(),
            addresses@.len() == n,
            forall|i: int| 0 <= i < n ==> (#[trigger] addresses@[i])@ == session@[i].1,
            updates@.len() * n <= usize::MAX,
            r@.len() == d * n,
            forall|e: int, a: int| 0 <= e < d && 0 <= a < n ==>
                (#[trigger] r@[e * n + a]).payload@ == updates@[e]@ && r@[e * n + a].address@ == session@[a].1,
        decreases updates@.len() - d,
    {
        let mut a: usize = 0;
        while a < n
            invariant
                d < updates@.len(),
                a <= n,
                n == session@.len(),
                addresses@.len() == n,
                forall|i: int| 0 <= i < n ==> (#[trigger] addresses@[i])@ == session@[i].1,
                updates@.len() * n <= usize::MAX,
                r@.len() == d * n + a,
                forall|e: int, b: int| 0 <= e < d && 0 <= b < n ==>
                    (#[trigger] r@[e * n + b]).payload@ == updates@[e]@ && r@[e * n + b].address@ == session@[b].1,
                forall|b: int| 0 <= b < a ==>
                    (#[trigger] r@[d * n + b]).payload@ == updates@[d as int]@ && r@[d * n + b].address@ == session@[b].1,
            decreases n - a,
        {
            proof {
                assert((d + 1) * n <= updates@.len() * n) by (nonlinear_arith)
                    requires d + 1 <= updates@.len();
                assert(d * n + a < (d + 1) * n) by (nonlinear_arith)
                    requires a < n;
            }
            let ghost before = r@;
            r.push(Delivery { address: addresses[a].clone(), payload: updates[d].clone() });
            proof {
                assert forall|e: int, b: int| 0 <= e < d && 0 <= b < n implies
                    (#[trigger] r@[e * n + b]).payload@ == updates@[e]@ && r@[e * n + b].address@ == session@[b].1 by {
                    assert(e * n + b < d * n) by (nonlinear_arith)
                        requires e < d, b < n, 0 <= e, 0 <= b;
                    assert(r@[e * n + b] == before[e * n + b]);
                }
            }
            a = a + 1;
        }
        proof {
            assert((d + 1) * n == d * n + n) by (nonlinear_arith);
        }
        d = d + 1;
    }
    r
}

} // verus!
