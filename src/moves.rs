//! Legal-move lists of the games: the values below a bound that satisfy a
//! predicate, in increasing order.
use vstd::prelude::*;

verus! {

/// The values below `n` that satisfy `pred`, in increasing order.
pub open spec fn upto(pred: spec_fn(u8) -> bool, n: nat) -> Seq<u8>
    decreases n,
{
    if n == 0 {
        Seq::empty()
    } else {
        let prev = upto(pred, (n - 1) as nat);
        if pred((n - 1) as u8) {
            prev.push((n - 1) as u8)
        } else {
            prev
        }
    }
}

/// `upto(pred, n)` is increasing, lies below `n`, and holds exactly the
/// values below `n` that satisfy `pred`.
pub proof fn lemma_upto(pred: spec_fn(u8) -> bool, n: nat)
    requires
        n <= 256,
    ensures
        forall|i: int| 0 <= i < upto(pred, n).len() ==> (#[trigger] upto(pred, n)[i]) < n,
        forall|i: int, k: int| 0 <= i < k < upto(pred, n).len() ==> upto(pred, n)[i] < upto(pred, n)[k],
        forall|a: u8| a < n ==> (upto(pred, n).contains(a) <==> #[trigger] pred(a)),
        forall|a: u8| #[trigger] upto(pred, n).contains(a) ==> a < n,
        forall|a: u8| #[trigger] upto(pred, n).contains(a) ==> pred(a),
    decreases n,
{
    if n > 0 {
        let m = (n - 1) as nat;
        lemma_upto(pred, m);
        let prev = upto(pred, m);
        let cur = upto(pred, n);
        assert forall|a: u8| a < n implies (cur.contains(a) <==> #[trigger] pred(a)) by {
            if pred(m as u8) {
                assert(cur == prev.push(m as u8));
                if a == m {
                    assert(cur[cur.len() - 1] == a);
                } else if cur.contains(a) {
                    let i = choose|i: int| 0 <= i < cur.len() && cur[i] == a;
                    assert(prev[i] == a);
                } else if prev.contains(a) {
                    let i = choose|i: int| 0 <= i < prev.len() && prev[i] == a;
                    assert(cur[i] == a);
                }
            }
        }
        assert forall|a: u8| #[trigger] cur.contains(a) implies a < n && pred(a) by {
            let i = choose|i: int| 0 <= i < cur.len() && cur[i] == a;
            if i < prev.len() {
                assert(prev[i] == a);
                assert(prev.contains(a));
            }
        }
    }
}

} // verus!
