//! Addresses of peers.
use vstd::prelude::*;

verus! {

/// The address of a peer: an internet address and a port.
#[allow(inconsistent_fields)]
#[derive(Clone, Copy, Debug, PartialEq, Eq, Structural)]
pub enum PeerAddress {
    V4 { ip: u32, port: u16 },
    V6 { ip: u128, port: u16 },
}

impl PeerAddress {
    /// Whether one address stands before another: those of the fourth version
    /// first, then by the internet address, then by the port.
    pub open spec fn less(self, other: PeerAddress) -> bool {
        match (self, other) {
            (PeerAddress::V4 { ip: a, port: p }, PeerAddress::V4 { ip: b, port: q }) => a < b || (a
                == b && p < q),
            (PeerAddress::V4 { .. }, PeerAddress::V6 { .. }) => true,
            (PeerAddress::V6 { .. }, PeerAddress::V4 { .. }) => false,
            (PeerAddress::V6 { ip: a, port: p }, PeerAddress::V6 { ip: b, port: q }) => a < b || (a
                == b && p < q),
        }
    }

    /// Whether one address stands before another.
    pub fn is_less(self, other: PeerAddress) -> (less: bool)
        ensures
            less == self.less(other),
    {
        match (self, other) {
            (PeerAddress::V4 { ip: a, port: p }, PeerAddress::V4 { ip: b, port: q }) => a < b || (a
                == b && p < q),
            (PeerAddress::V4 { .. }, PeerAddress::V6 { .. }) => true,
            (PeerAddress::V6 { .. }, PeerAddress::V4 { .. }) => false,
            (PeerAddress::V6 { ip: a, port: p }, PeerAddress::V6 { ip: b, port: q }) => a < b || (a
                == b && p < q),
        }
    }
}

/// Each address stands before those behind it, so none occurs twice.
pub open spec fn ascending(list: Seq<PeerAddress>) -> bool {
    forall|i: int, j: int| 0 <= i < j < list.len() ==> (#[trigger] list[i]).less(#[trigger] list[j])
}

/// Puts an address in its place among addresses in order, unless it is there.
fn insert_address(list: &mut Vec<PeerAddress>, item: PeerAddress)
    requires
        ascending(old(list)@),
    ensures
        ascending(final(list)@),
        forall|a: PeerAddress| #[trigger]
            final(list)@.contains(a) <==> old(list)@.contains(a) || a == item,
{
    let ghost before = list@;
    let mut i: usize = 0;
    while i < list.len() && list[i].is_less(item)
        invariant
            i <= list@.len(),
            before == list@,
            forall|k: int| 0 <= k < i ==> (#[trigger] before[k]).less(item),
        decreases list@.len() - i,
    {
        i = i + 1;
    }
    if i < list.len() && list[i] == item {
        return ;
    }
    list.insert(i, item);
    proof {
        let after = list@;
        assert forall|a: int, b: int| 0 <= a < b < after.len() implies (
        #[trigger] after[a]).less(#[trigger] after[b]) by {
            if a == i && i < before.len() {
                assert(item.less(before[i as int]));
                assert(after[b] == before[b - 1]);
            }
        }
        assert forall|a: PeerAddress| #[trigger]
            after.contains(a) <==> before.contains(a) || a == item by {
            if after.contains(a) {
                let k = choose|k: int| 0 <= k < after.len() && after[k] == a;
                if k < i {
                    assert(before[k] == a);
                } else if k > i {
                    assert(before[k - 1] == a);
                }
            }
            if before.contains(a) {
                let k = choose|k: int| 0 <= k < before.len() && before[k] == a;
                if k < i {
                    assert(after[k] == a);
                } else {
                    assert(after[k + 1] == a);
                }
            }
            if a == item {
                assert(after[i as int] == a);
            }
        }
    }
}

/// The addresses in order, each one once.
pub fn sorted_unique(list: &Vec<PeerAddress>) -> (sorted: Vec<PeerAddress>)
    ensures
        ascending(sorted@),
        forall|a: PeerAddress| #[trigger] sorted@.contains(a) <==> list@.contains(a),
{
    let mut sorted: Vec<PeerAddress> = Vec::new();
    let mut i: usize = 0;
    while i < list.len()
        invariant
            i <= list@.len(),
            ascending(sorted@),
            forall|a: PeerAddress| #[trigger]
                sorted@.contains(a) <==> list@.take(i as int).contains(a),
        decreases list@.len() - i,
    {
        let ghost before = sorted@;
        insert_address(&mut sorted, list[i]);
        proof {
            assert forall|a: PeerAddress| #[trigger]
                sorted@.contains(a) <==> list@.take(i + 1).contains(a) by {
                let shorter = list@.take(i as int);
                let longer = list@.take(i + 1);
                if longer.contains(a) {
                    let k = choose|k: int| 0 <= k < longer.len() && longer[k] == a;
                    if k < i {
                        assert(shorter[k] == a);
                    }
                }
                if shorter.contains(a) {
                    let k = choose|k: int| 0 <= k < shorter.len() && shorter[k] == a;
                    assert(longer[k] == a);
                }
                if a == list@[i as int] {
                    assert(longer[i as int] == a);
                }
                assert(sorted@.contains(a) <==> before.contains(a) || a == list@[i as int]);
            }
        }
        i = i + 1;
    }
    assert(list@.take(i as int) =~= list@);
    sorted
}

/// Addresses in order are told apart by what they hold: two such lists with the
/// same addresses are the same list.
pub proof fn lemma_ascending_unique(first: Seq<PeerAddress>, second: Seq<PeerAddress>)
    requires
        ascending(first),
        ascending(second),
        forall|a: PeerAddress| #[trigger] first.contains(a) <==> second.contains(a),
    ensures
        first == second,
    decreases first.len(),
{
    if first.len() == 0 {
        if second.len() > 0 {
            assert(second.contains(second[0]));
            assert(first.contains(second[0]));
        }
        assert(first =~= second);
    } else {
        assert(first.contains(first[0]));
        assert(second.contains(first[0]));
        let x = first.last();
        let y = second.last();
        assert(first.contains(x));
        assert(second.contains(y));
        assert(second.contains(x) && first.contains(y));
        let i = choose|i: int| 0 <= i < second.len() && second[i] == x;
        let j = choose|j: int| 0 <= j < first.len() && first[j] == y;
        assert(x == y) by {
            if i < second.len() - 1 {
                assert(second[i].less(second[second.len() - 1]));
                if j < first.len() - 1 {
                    assert(first[j].less(first[first.len() - 1]));
                }
            }
        }
        let shorter = first.drop_last();
        let other = second.drop_last();
        assert forall|a: PeerAddress| #[trigger] shorter.contains(a) <==> other.contains(a) by {
            if shorter.contains(a) {
                let k = choose|k: int| 0 <= k < shorter.len() && shorter[k] == a;
                assert(first[k].less(first[first.len() - 1]));
                assert(first.contains(first[k]));
                assert(second.contains(a));
                let m = choose|m: int| 0 <= m < second.len() && second[m] == a;
                assert(m < second.len() - 1);
                assert(other[m] == a);
            }
            if other.contains(a) {
                let k = choose|k: int| 0 <= k < other.len() && other[k] == a;
                assert(second[k].less(second[second.len() - 1]));
                assert(second.contains(second[k]));
                assert(first.contains(a));
                let m = choose|m: int| 0 <= m < first.len() && first[m] == a;
                assert(m < first.len() - 1);
                assert(shorter[m] == a);
            }
        }
        lemma_ascending_unique(shorter, other);
        assert(first =~= shorter.push(x));
        assert(second =~= other.push(y));
    }
}

} // verus!
