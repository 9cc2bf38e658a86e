//! Counting the members of a group that stand in a certain way, and finding one
//! by address.

use vstd::prelude::*;

use crate::types::{Address, Member};

verus! {

/// A way in which a member can stand in its group.
#[derive(Copy, Clone, Debug, PartialEq, Eq, Structural)]
pub enum Standing {
    /// Not defaulted out of the group.
    Active,
    /// Active, and did not pay this round.
    Straggler,
    /// Active, and still to win.
    Eligible,
    /// Active, and paid this round.
    Paid,
    /// Active, and still to be refunded.
    Unrefunded,
    /// Out of the group.
    Inactive,
}

/// Whether `m` stands as `k` says.
pub open spec fn stands(m: Member, k: Standing) -> bool {
    match k {
        Standing::Active => m.active,
        Standing::Straggler => m.active && !m.contributed_this_round,
        Standing::Eligible => m.active && !m.won_this_rotation,
        Standing::Paid => m.active && m.contributed_this_round,
        Standing::Unrefunded => m.active && !m.refunded,
        Standing::Inactive => !m.active,
    }
}

/// How many of `ms` stand as `k` says.
pub open spec fn count(ms: Seq<Member>, k: Standing) -> nat
    decreases ms.len(),
{
    if ms.len() == 0 {
        0
    } else {
        count(ms.drop_last(), k) + if stands(ms.last(), k) { 1nat } else { 0nat }
    }
}

/// Whether some member stands as `k` says.
pub open spec fn any(ms: Seq<Member>, k: Standing) -> bool {
    exists|i: int| 0 <= i < ms.len() && stands(#[trigger] ms[i], k)
}

/// The index of the first member with this address.
pub open spec fn find(ms: Seq<Member>, addr: Address) -> Option<int>
    decreases ms.len(),
{
    if ms.len() == 0 {
        None
    } else {
        match find(ms.drop_last(), addr) {
            Some(i) => Some(i),
            None => if ms.last().addr == addr { Some(ms.len() - 1) } else { None },
        }
    }
}

/// Whether no two members share an address.
pub open spec fn distinct(ms: Seq<Member>) -> bool {
    forall|i: int, j: int|
        #![trigger ms[i], ms[j]]
        0 <= i < j < ms.len() ==> ms[i].addr != ms[j].addr
}

/// What `find` finds is the first member with the address; it finds nothing only
/// where no member has it.
pub proof fn lemma_find(ms: Seq<Member>, addr: Address)
    ensures
        match find(ms, addr) {
            Some(i) => 0 <= i < ms.len() && ms[i].addr == addr && forall|j: int|
                0 <= j < i ==> (#[trigger] ms[j]).addr != addr,
            None => forall|j: int| 0 <= j < ms.len() ==> (#[trigger] ms[j]).addr != addr,
        },
    decreases ms.len(),
{
    if ms.len() > 0 {
        let front = ms.drop_last();
        lemma_find(front, addr);
        assert(forall|j: int| 0 <= j < front.len() ==> #[trigger] ms[j] == front[j]);
    }
}

/// An index with the address and none before it is what `find` finds.
pub proof fn lemma_find_is(ms: Seq<Member>, addr: Address, i: int)
    requires
        0 <= i < ms.len(),
        ms[i].addr == addr,
        forall|j: int| 0 <= j < i ==> (#[trigger] ms[j]).addr != addr,
    ensures
        find(ms, addr) == Some(i),
{
    lemma_find(ms, addr);
}

/// With no such address, `find` finds nothing.
pub proof fn lemma_find_none(ms: Seq<Member>, addr: Address)
    requires
        forall|j: int| 0 <= j < ms.len() ==> (#[trigger] ms[j]).addr != addr,
    ensures
        find(ms, addr) is None,
{
    lemma_find(ms, addr);
}

/// `find` only reads the addresses.
pub proof fn lemma_find_same(a: Seq<Member>, b: Seq<Member>, addr: Address)
    requires
        a.len() == b.len(),
        forall|i: int| 0 <= i < a.len() ==> (#[trigger] a[i]).addr == b[i].addr,
    ensures
        find(a, addr) == find(b, addr),
{
    lemma_find(a, addr);
    lemma_find(b, addr);
    match find(a, addr) {
        Some(i) => {
            assert forall|j: int| 0 <= j < i implies (#[trigger] b[j]).addr != addr by {
                assert(a[j].addr != addr);
            }
            assert(a[i].addr == b[i].addr);
            lemma_find_is(b, addr, i);
        },
        None => {
            assert forall|j: int| 0 <= j < b.len() implies (#[trigger] b[j]).addr != addr by {
                assert(a[j].addr != addr);
            }
            lemma_find_none(b, addr);
        },
    }
}

/// One more member at the end.
pub proof fn lemma_count_push(ms: Seq<Member>, m: Member, k: Standing)
    ensures
        count(ms.push(m), k) == count(ms, k) + if stands(m, k) { 1nat } else { 0nat },
{
    assert(ms.push(m).drop_last() =~= ms);
}

/// One more member of a prefix.
pub proof fn lemma_count_take(ms: Seq<Member>, i: int, k: Standing)
    requires
        0 <= i < ms.len(),
    ensures
        count(ms.take(i + 1), k) == count(ms.take(i), k) + if stands(ms[i], k) {
            1nat
        } else {
            0nat
        },
{
    assert(ms.take(i + 1) =~= ms.take(i).push(ms[i]));
    lemma_count_push(ms.take(i), ms[i], k);
}

/// One member in another's place.
pub proof fn lemma_count_update(ms: Seq<Member>, i: int, m: Member, k: Standing)
    requires
        0 <= i < ms.len(),
    ensures
        count(ms.update(i, m), k) == count(ms, k) - (if stands(ms[i], k) { 1int } else { 0int }) + (
        if stands(m, k) { 1int } else { 0int }),
    decreases ms.len(),
{
    let after = ms.update(i, m);
    if i == ms.len() - 1 {
        assert(after.drop_last() =~= ms.drop_last());
    } else {
        assert(after.drop_last() =~= ms.drop_last().update(i, m));
        lemma_count_update(ms.drop_last(), i, m, k);
    }
}

/// Counts agree where the members stand alike, seat by seat.
pub proof fn lemma_count_same(a: Seq<Member>, ka: Standing, b: Seq<Member>, kb: Standing)
    requires
        a.len() == b.len(),
        forall|i: int| 0 <= i < a.len() ==> stands(#[trigger] a[i], ka) == stands(b[i], kb),
    ensures
        count(a, ka) == count(b, kb),
    decreases a.len(),
{
    if a.len() > 0 {
        let fa = a.drop_last();
        let fb = b.drop_last();
        assert forall|i: int| 0 <= i < fa.len() implies stands(#[trigger] fa[i], ka) == stands(
            fb[i],
            kb,
        ) by {
            assert(fa[i] == a[i] && fb[i] == b[i]);
        }
        lemma_count_same(fa, ka, fb, kb);
        assert(stands(a[a.len() - 1], ka) == stands(b[b.len() - 1], kb));
    }
}

/// Counts grow where the members that stand one way also stand the other way, seat by seat.
pub proof fn lemma_count_le(a: Seq<Member>, ka: Standing, b: Seq<Member>, kb: Standing)
    requires
        a.len() == b.len(),
        forall|i: int| 0 <= i < a.len() && stands(#[trigger] a[i], ka) ==> stands(b[i], kb),
    ensures
        count(a, ka) <= count(b, kb),
    decreases a.len(),
{
    if a.len() > 0 {
        let fa = a.drop_last();
        let fb = b.drop_last();
        assert forall|i: int| 0 <= i < fa.len() && stands(#[trigger] fa[i], ka) implies stands(
            fb[i],
            kb,
        ) by {
            assert(fa[i] == a[i] && fb[i] == b[i]);
        }
        lemma_count_le(fa, ka, fb, kb);
        assert(stands(a[a.len() - 1], ka) ==> stands(b[b.len() - 1], kb));
    }
}

/// Whether `a` stands as `ka` says exactly where one of `b` and `c` stands as
/// `kb` or `kc` says, never both.
pub open spec fn splits(
    a: Member,
    ka: Standing,
    b: Member,
    kb: Standing,
    c: Member,
    kc: Standing,
) -> bool {
    &&& stands(a, ka) == (stands(b, kb) || stands(c, kc))
    &&& !(stands(b, kb) && stands(c, kc))
}

/// Where one standing is split in two, so is its count.
pub proof fn lemma_count_split(
    a: Seq<Member>,
    ka: Standing,
    b: Seq<Member>,
    kb: Standing,
    c: Seq<Member>,
    kc: Standing,
)
    requires
        a.len() == b.len() == c.len(),
        forall|i: int|
            0 <= i < a.len() ==> splits(#[trigger] a[i], ka, b[i], kb, c[i], kc),
    ensures
        count(a, ka) == count(b, kb) + count(c, kc),
    decreases a.len(),
{
    if a.len() > 0 {
        let fa = a.drop_last();
        let fb = b.drop_last();
        let fc = c.drop_last();
        assert forall|i: int| 0 <= i < fa.len() implies splits(
            #[trigger] fa[i],
            ka,
            fb[i],
            kb,
            fc[i],
            kc,
        ) by {
            assert(fa[i] == a[i] && fb[i] == b[i] && fc[i] == c[i]);
        }
        lemma_count_split(fa, ka, fb, kb, fc, kc);
        let last = a.len() - 1;
        assert(splits(a[last], ka, b[last], kb, c[last], kc));
    }
}

/// No more members are counted than there are.
pub proof fn lemma_count_le_len(ms: Seq<Member>, k: Standing)
    ensures
        count(ms, k) <= ms.len(),
    decreases ms.len(),
{
    if ms.len() > 0 {
        lemma_count_le_len(ms.drop_last(), k);
    }
}

/// A prefix counts no more than the whole.
pub proof fn lemma_count_prefix(ms: Seq<Member>, i: int, k: Standing)
    requires
        0 <= i <= ms.len(),
    ensures
        count(ms.take(i), k) <= count(ms, k),
    decreases ms.len() - i,
{
    if i == ms.len() {
        assert(ms.take(i) =~= ms);
    } else {
        lemma_count_take(ms, i, k);
        lemma_count_prefix(ms, i + 1, k);
    }
}

/// The count is zero exactly where no member stands that way.
pub proof fn lemma_count_any(ms: Seq<Member>, k: Standing)
    ensures
        any(ms, k) <==> count(ms, k) > 0,
    decreases ms.len(),
{
    if ms.len() > 0 {
        let front = ms.drop_last();
        lemma_count_any(front, k);
        if any(front, k) {
            let i = choose|i: int| 0 <= i < front.len() && stands(#[trigger] front[i], k);
            assert(stands(ms[i], k));
        }
        if any(ms, k) {
            let i = choose|i: int| 0 <= i < ms.len() && stands(#[trigger] ms[i], k);
            if i < ms.len() - 1 {
                assert(stands(front[i], k));
            }
        }
        if stands(ms.last(), k) {
            assert(stands(ms[ms.len() - 1], k));
        }
    }
}

} // verus!
