//! The list rules behind the dashboard's address-list endpoints:
//! adding an address only once and removing its first occurrence.
//! The HTTP routing around them lives outside.

use vstd::prelude::*;

use crate::identity::EthAddress;

verus! {

pub open spec fn spec_addr_listed(s: Seq<EthAddress>, a: EthAddress) -> bool {
    exists|i: int| 0 <= i < s.len() && s[i] == a
}

/// Add an address to the list unless it is already there.
/// Reports whether the list changed.
pub fn dao_list_add(list: &mut Vec<EthAddress>, addr: EthAddress) -> (r: bool)
    ensures
        r == !spec_addr_listed(old(list)@, addr),
        r ==> final(list)@ == old(list)@.push(addr),
        !r ==> final(list)@ == old(list)@,
        spec_addr_listed(final(list)@, addr),
{
    let n = list.len();
    let mut k: usize = 0;
    while k < n
        invariant
            list@ == old(list)@,
            n == list@.len(),
            k <= n,
            forall|j: int| 0 <= j < k ==> list@[j] != addr,
        decreases n - k,
    {
        if list[k] == addr {
            return false;
        }
        k += 1;
    }
    list.push(addr);
    proof {
        assert(list@[list@.len() - 1] == addr);
    }
    true
}

/// Remove the first occurrence of an address from the list, if any.
/// Reports whether the list changed.
pub fn dao_list_remove(list: &mut Vec<EthAddress>, addr: EthAddress) -> (r: bool)
    ensures
        r == spec_addr_listed(old(list)@, addr),
        !r ==> final(list)@ == old(list)@,
        r ==> exists|i: int|
            0 <= i < old(list)@.len() && old(list)@[i] == addr && final(list)@ == old(
                list,
            )@.remove(i) && (forall|j: int| 0 <= j < i ==> old(list)@[j] != addr),
{
    let n = list.len();
    let mut k: usize = 0;
    while k < n
        invariant
            list@ == old(list)@,
            n == list@.len(),
            k <= n,
            forall|j: int| 0 <= j < k ==> list@[j] != addr,
        decreases n - k,
    {
        if list[k] == addr {
            let ghost pre = list@;
            list.remove(k);
            proof {
                assert(0 <= k < pre.len() && pre[k as int] == addr && list@ == pre.remove(
                    k as int,
                ));
                assert(spec_addr_listed(pre, addr));
            }
            return true;
        }
        k += 1;
    }
    false
}

} // verus!
