//! The order in which cards fill the sheets: each card is repeated as many
//! times as its quantity, and the copies fill the slots of one sheet after
//! another.
use vstd::prelude::*;

verus! {

/// The card indices in print order: card 0 `quantities[0]` times, then
/// card 1 `quantities[1]` times, and so on.
pub open spec fn repeated_indices(quantities: Seq<u32>) -> Seq<usize>
    decreases quantities.len(),
{
    if quantities.len() == 0 {
        Seq::empty()
    } else {
        let last = (quantities.len() - 1) as usize;
        repeated_indices(quantities.drop_last()) + Seq::new(
            quantities.last() as nat,
            |k: int| last,
        )
    }
}

/// The sum of the quantities.
pub open spec fn total_of(quantities: Seq<u32>) -> nat
    decreases quantities.len(),
{
    if quantities.len() == 0 {
        0
    } else {
        total_of(quantities.drop_last()) + quantities.last() as nat
    }
}

/// Where one printed copy goes.
#[derive(PartialEq, Eq, Structural, Clone, Copy, Debug)]
pub struct Placement {
    /// The sheet, counted from 0.
    pub page: usize,
    /// The slot on that sheet, as numbered by `LayoutConfig::card_positions`.
    pub slot: usize,
    /// The index of the card printed there.
    pub card: usize,
}

proof fn lemma_repeated_len(q: Seq<u32>)
    ensures
        repeated_indices(q).len() == total_of(q),
        forall|k: int|
            0 <= k < repeated_indices(q).len() ==> #[trigger] repeated_indices(q)[k] < q.len(),
    decreases q.len(),
{
    if q.len() > 0 {
        lemma_repeated_len(q.drop_last());
    }
}

/// The card indices in print order: each card as many times as its
/// quantity, in the order given.
pub fn print_order(quantities: &Vec<u32>) -> (order: Vec<usize>)
    ensures
        order@ == repeated_indices(quantities@),
        order.len() == total_of(quantities@),
{
    let mut order: Vec<usize> = Vec::new();
    let mut i: usize = 0;
    proof {
        assert(quantities@.take(0) =~= Seq::<u32>::empty());
    }
    while i < quantities.len()
        invariant
            i <= quantities.len(),
            order@ == repeated_indices(quantities@.take(i as int)),
        decreases quantities.len() - i,
    {
        let q = quantities[i];
        let ghost before = order@;
        let mut k: u32 = 0;
        while k < q
            invariant
                k <= q,
                order@ == before + Seq::new(k as nat, |j: int| i),
            decreases q - k,
        {
            order.push(i);
            k += 1;
            assert(order@ =~= before + Seq::new(k as nat, |j: int| i));
        }
        proof {
            let t = quantities@.take(i + 1);
            assert(t.drop_last() =~= quantities@.take(i as int));
            assert(t.last() == q);
            assert(order@ =~= repeated_indices(t));
        }
        i += 1;
    }
    proof {
        assert(quantities@.take(quantities.len() as int) =~= quantities@);
        lemma_repeated_len(quantities@);
    }
    order
}

/// Where each printed copy goes: copy `k` of the print order on sheet
/// `k / per_page`, slot `k % per_page`.
pub fn sheet_plan(quantities: &Vec<u32>, per_page: usize) -> (plan: Vec<Placement>)
    requires
        per_page > 0,
    ensures
        plan.len() == total_of(quantities@),
        forall|k: int|
            0 <= k < plan.len() ==> {
                &&& (#[trigger] plan@[k]).page == k / (per_page as int)
                &&& plan@[k].slot == k % (per_page as int)
                &&& plan@[k].card == repeated_indices(quantities@)[k]
                &&& plan@[k].card < quantities.len()
            },
{
    let order = print_order(quantities);
    proof {
        lemma_repeated_len(quantities@);
    }
    let mut plan: Vec<Placement> = Vec::new();
    let mut k: usize = 0;
    while k < order.len()
        invariant
            per_page > 0,
            k <= order.len(),
            order@ == repeated_indices(quantities@),
            order.len() == total_of(quantities@),
            forall|j: int| 0 <= j < order.len() ==> #[trigger] order@[j] < quantities.len(),
            plan.len() == k,
            forall|j: int|
                0 <= j < k ==> {
                    &&& (#[trigger] plan@[j]).page == j / (per_page as int)
                    &&& plan@[j].slot == j % (per_page as int)
                    &&& plan@[j].card == order@[j]
                },
        decreases order.len() - k,
    {
        plan.push(Placement { page: k / per_page, slot: k % per_page, card: order[k] });
        k += 1;
    }
    plan
}

/// How many sheets a plan of `copies` copies takes: at least one, since a
/// document always has a first page.
pub fn sheet_count(copies: usize, per_page: usize) -> (n: usize)
    requires
        per_page > 0,
    ensures
        n >= 1,
        n == if copies == 0 {
            1
        } else {
            (copies - 1) / (per_page as int) + 1
        },
        copies == 0 || (n - 1) * per_page < copies <= n * per_page,
{
    if copies == 0 {
        1
    } else {
        let n = (copies - 1) / per_page + 1;
        proof {
            vstd::arithmetic::div_mod::lemma_fundamental_div_mod((copies - 1) as int, per_page as int);
            let q = (copies - 1) / (per_page as int);
            let r = (copies - 1) % (per_page as int);
            assert((n - 1) * per_page < copies <= n * per_page) by (nonlinear_arith)
                requires
                    copies - 1 == per_page * q + r,
                    0 <= r < per_page,
                    n == q + 1,
            ;
        }
        n
    }
}

/// Every placement of a plan is on one of the sheets and in a slot of the
/// sheet, and no two copies share a slot of a sheet.
pub proof fn lemma_plan_slots_distinct(copies: nat, per_page: nat, j: int, k: int)
    requires
        per_page > 0,
        0 <= j < k < copies,
    ensures
        j / (per_page as int) != k / (per_page as int) || j % (per_page as int) != k % (
        per_page as int),
        k % (per_page as int) < per_page,
{
    let p = per_page as int;
    vstd::arithmetic::div_mod::lemma_fundamental_div_mod(j, p);
    vstd::arithmetic::div_mod::lemma_fundamental_div_mod(k, p);
}

} // verus!
