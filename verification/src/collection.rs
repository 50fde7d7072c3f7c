//! Bookkeeping of the cards gathered for a print run: merging repeated
//! cards, counting copies, filling the last sheet, and skipping repeated
//! downloads.
use vstd::prelude::*;

use crate::pdf::generator::total_of;
use crate::scryfall::models::Card;

verus! {

// ------------------------------------------------------------------
// Merging cards by id
// ------------------------------------------------------------------

/// The index of the first card in `all` with the given id.
pub open spec fn find_id(all: Seq<(Card, u32)>, id: Seq<char>) -> Option<int>
    decreases all.len(),
{
    if all.len() == 0 {
        None
    } else {
        match find_id(all.drop_last(), id) {
            Some(k) => Some(k),
            None => if all.last().0.id@ == id {
                Some(all.len() - 1)
            } else {
                None
            },
        }
    }
}

/// Adding one card with a quantity: a card already present (by id) gets
/// the quantity added to its own, a new one is appended. None when the sum
/// does not fit in a `u32`.
pub open spec fn merge_step(all: Seq<(Card, u32)>, c: (Card, u32)) -> Option<Seq<(Card, u32)>> {
    match find_id(all, c.0.id@) {
        Some(k) => if all[k].1 + c.1 <= u32::MAX {
            Some(all.update(k, (all[k].0, (all[k].1 + c.1) as u32)))
        } else {
            None
        },
        None => Some(all.push(c)),
    }
}

/// Adding the cards of `inc` one after another.
pub open spec fn merge_run(all: Seq<(Card, u32)>, inc: Seq<(Card, u32)>) -> Option<
    Seq<(Card, u32)>,
>
    decreases inc.len(),
{
    if inc.len() == 0 {
        Some(all)
    } else {
        match merge_run(all, inc.drop_last()) {
            Some(a) => merge_step(a, inc.last()),
            None => None,
        }
    }
}

/// How many cards of `inc` were already present when they were added.
pub open spec fn merged_count(all: Seq<(Card, u32)>, inc: Seq<(Card, u32)>) -> nat
    decreases inc.len(),
{
    if inc.len() == 0 {
        0
    } else {
        match merge_run(all, inc.drop_last()) {
            Some(a) => merged_count(all, inc.drop_last()) + if find_id(a, inc.last().0.id@) is Some {
                1nat
            } else {
                0nat
            },
            None => 0,
        }
    }
}

proof fn lemma_find_id_facts(all: Seq<(Card, u32)>, id: Seq<char>)
    ensures
        match find_id(all, id) {
            Some(k) => 0 <= k < all.len() && all[k].0.id@ == id && forall|j: int|
                0 <= j < k ==> all[j].0.id@ != id,
            None => forall|j: int| 0 <= j < all.len() ==> all[j].0.id@ != id,
        },
    decreases all.len(),
{
    if all.len() > 0 {
        let p = all.drop_last();
        lemma_find_id_facts(p, id);
        assert(forall|j: int| 0 <= j < p.len() ==> p[j] == all[j]);
    }
}

/// The index of the first card in `all` with the id of `card`.
fn find_id_exec(all: &Vec<(Card, u32)>, card: &Card) -> (r: Option<usize>)
    ensures
        match (r, find_id(all@, card.id@)) {
            (Some(a), Some(b)) => a == b,
            (None, None) => true,
            _ => false,
        },
        r matches Some(k) ==> k < all.len(),
{
    proof {
        lemma_find_id_facts(all@, card.id@);
    }
    let mut k: usize = 0;
    while k < all.len()
        invariant
            k <= all.len(),
            forall|j: int| 0 <= j < k ==> all@[j].0.id@ != card.id@,
        decreases all.len() - k,
    {
        if all[k].0.id == card.id {
            proof {
                lemma_find_id_facts(all@, card.id@);
                match find_id(all@, card.id@) {
                    Some(b) => {
                        if b > k {
                            assert(all@[k as int].0.id@ == card.id@);
                        }
                    },
                    None => {
                        assert(all@[k as int].0.id@ == card.id@);
                    },
                }
            }
            return Some(k);
        }
        k += 1;
    }
    None
}

proof fn lemma_merge_none_stays(all: Seq<(Card, u32)>, inc: Seq<(Card, u32)>, k: int)
    requires
        0 <= k <= inc.len(),
        merge_run(all, inc.take(k)) is None,
    ensures
        merge_run(all, inc) is None,
    decreases inc.len() - k,
{
    if k < inc.len() {
        assert(inc.take(k + 1).drop_last() =~= inc.take(k));
        lemma_merge_none_stays(all, inc, k + 1);
    } else {
        assert(inc.take(k) =~= inc);
    }
}

/// Adds `incoming` to `all`: a card whose id is already in `all` adds its
/// quantity to that entry, any other card is appended with its quantity.
/// Returns how many incoming cards were merged into existing entries.
pub fn merge_cards(all: &mut Vec<(Card, u32)>, incoming: Vec<(Card, u32)>) -> (merged: usize)
    requires
        merge_run(old(all)@, incoming@) is Some,
    ensures
        Some(final(all)@) == merge_run(old(all)@, incoming@),
        merged == merged_count(old(all)@, incoming@),
{
    let ghost start = all@;
    let ghost inc = incoming@;
    let mut merged: usize = 0;
    let n = incoming.len();
    proof {
        assert(inc.take(0) =~= Seq::<(Card, u32)>::empty());
    }
    for c in it: incoming.into_iter()
        invariant
            it.seq() == inc,
            merge_run(start, inc) is Some,
            Some(all@) == merge_run(start, inc.take(it.index() as int)),
            merged == merged_count(start, inc.take(it.index() as int)),
            merged <= it.index(),
            it.index() <= inc.len(),
            inc.len() == n,
    {
        let ghost i = it.index() as int;
        let ghost t = inc.take(i + 1);
        proof {
            assert(t.drop_last() =~= inc.take(i));
            assert(t.last() == c);
            if merge_run(start, t) is None {
                lemma_merge_none_stays(start, inc, i + 1);
            }
        }
        match find_id_exec(all, &c.0) {
            Some(k) => {
                let q = all[k].1 + c.1;
                all[k].1 = q;
                merged += 1;
            },
            None => {
                all.push(c);
            },
        }
        proof {
            assert(Some(all@) == merge_run(start, t));
        }
    }
    proof {
        assert(inc.take(inc.len() as int) =~= inc);
    }
    merged
}

/// Whether adding `incoming` to `all` keeps every quantity within a `u32`,
/// that is, whether `merge_cards` may be called.
pub fn merge_fits(all: &Vec<(Card, u32)>, incoming: &Vec<(Card, u32)>) -> (b: bool)
    ensures
        b == merge_run(all@, incoming@) is Some,
{
    let mut ids: Vec<String> = Vec::new();
    let mut qtys: Vec<u32> = Vec::new();
    let mut k: usize = 0;
    while k < all.len()
        invariant
            k <= all.len(),
            ids.len() == k,
            qtys.len() == k,
            forall|j: int| 0 <= j < k ==> #[trigger] ids@[j]@ == all@[j].0.id@ && qtys@[j] == all@[j].1,
        decreases all.len() - k,
    {
        let id = all[k].0.id.clone();
        let ghost old_ids = ids@;
        let ghost old_q = qtys@;
        ids.push(id);
        qtys.push(all[k].1);
        assert forall|j: int| 0 <= j < k + 1 implies #[trigger] ids@[j]@ == all@[j].0.id@ && qtys@[j]
            == all@[j].1 by {
            if j < k {
                assert(ids@[j] == old_ids[j]);
                assert(qtys@[j] == old_q[j]);
            }
        }
        k += 1;
    }
    let ghost mut cur: Seq<(Card, u32)> = all@;
    let mut i: usize = 0;
    proof {
        assert(incoming@.take(0) =~= Seq::<(Card, u32)>::empty());
    }
    while i < incoming.len()
        invariant
            i <= incoming.len(),
            Some(cur) == merge_run(all@, incoming@.take(i as int)),
            ids.len() == cur.len(),
            qtys.len() == cur.len(),
            forall|j: int| 0 <= j < cur.len() ==> #[trigger] ids@[j]@ == cur[j].0.id@ && qtys@[j] == cur[j].1,
        decreases incoming.len() - i,
    {
        let ghost t = incoming@.take(i + 1);
        proof {
            assert(t.drop_last() =~= incoming@.take(i as int));
            assert(t.last() == incoming@[i as int]);
            lemma_find_id_facts(cur, incoming@[i as int].0.id@);
        }
        let id = &incoming[i].0.id;
        let mut j: usize = 0;
        while j < ids.len() && ids[j] != *id
            invariant
                j <= ids.len(),
                ids.len() == cur.len(),
                forall|m: int| 0 <= m < cur.len() ==> #[trigger] ids@[m]@ == cur[m].0.id@,
                forall|m: int| 0 <= m < j ==> cur[m].0.id@ != id@,
            decreases ids.len() - j,
        {
            j += 1;
        }
        let found: Option<usize> = if j < ids.len() {
            Some(j)
        } else {
            None
        };
        match found {
            Some(m) => {
                proof {
                    assert(cur[m as int].0.id@ == id@);
                    match find_id(cur, id@) {
                        Some(b) => {
                            if b < m {
                            } else if b > m {
                            }
                        },
                        None => {},
                    }
                    assert(find_id(cur, id@) == Some(m as int));
                }
                let total = qtys[m] as u64 + incoming[i].1 as u64;
                if total > 0xffff_ffff {
                    proof {
                        assert(merge_run(all@, t) is None);
                        lemma_merge_none_stays(all@, incoming@, i + 1);
                    }
                    return false;
                }
                qtys.set(m, total as u32);
                proof {
                    cur = cur.update(m as int, (cur[m as int].0, total as u32));
                }
            },
            None => {
                proof {
                    assert(find_id(cur, id@) is None);
                }
                ids.push(id.clone());
                qtys.push(incoming[i].1);
                proof {
                    cur = cur.push(incoming@[i as int]);
                }
            },
        }
        i += 1;
    }
    proof {
        assert(incoming@.take(incoming.len() as int) =~= incoming@);
    }
    true
}

// ------------------------------------------------------------------
// Laws of merging
// ------------------------------------------------------------------

/// No two cards share an id.
pub open spec fn ids_distinct(all: Seq<(Card, u32)>) -> bool {
    forall|i: int, j: int| 0 <= i < j < all.len() ==> all[i].0.id@ != all[j].0.id@
}

/// The sum of the quantities.
pub open spec fn total_quantity(all: Seq<(Card, u32)>) -> nat
    decreases all.len(),
{
    if all.len() == 0 {
        0
    } else {
        total_quantity(all.drop_last()) + all.last().1 as nat
    }
}

proof fn lemma_total_update(s: Seq<(Card, u32)>, k: int, v: (Card, u32))
    requires
        0 <= k < s.len(),
    ensures
        total_quantity(s.update(k, v)) + s[k].1 == total_quantity(s) + v.1,
    decreases s.len(),
{
    let u = s.update(k, v);
    if k < s.len() - 1 {
        lemma_total_update(s.drop_last(), k, v);
        assert(u.drop_last() =~= s.drop_last().update(k, v));
    } else {
        assert(u.drop_last() =~= s.drop_last());
    }
}

/// Merging keeps ids distinct, keeps every quantity (the total of the
/// result is the total of both), and leaves every incoming id present.
pub proof fn lemma_merge_laws(all: Seq<(Card, u32)>, inc: Seq<(Card, u32)>)
    requires
        ids_distinct(all),
        merge_run(all, inc) is Some,
    ensures
        ids_distinct(merge_run(all, inc).unwrap()),
        total_quantity(merge_run(all, inc).unwrap()) == total_quantity(all) + total_quantity(inc),
        forall|k: int|
            0 <= k < inc.len() ==> find_id(merge_run(all, inc).unwrap(), (#[trigger] inc[k]).0.id@)
                is Some,
        forall|k: int|
            0 <= k < all.len() ==> find_id(merge_run(all, inc).unwrap(), (#[trigger] all[k]).0.id@)
                is Some,
    decreases inc.len(),
{
    if inc.len() == 0 {
        assert forall|k: int| 0 <= k < all.len() implies find_id(all, (#[trigger] all[k]).0.id@)
            is Some by {
            lemma_find_id_facts(all, all[k].0.id@);
        }
    } else {
        let p = inc.drop_last();
        if merge_run(all, p) is None {
            lemma_merge_none_stays(all, inc, inc.len() - 1);
            assert(inc.take(inc.len() - 1) =~= p);
        }
        lemma_merge_laws(all, p);
        let a = merge_run(all, p).unwrap();
        let c = inc.last();
        let r = merge_run(all, inc).unwrap();
        lemma_find_id_facts(a, c.0.id@);
        match find_id(a, c.0.id@) {
            Some(k) => {
                lemma_total_update(a, k, (a[k].0, (a[k].1 + c.1) as u32));
                assert(r == a.update(k, (a[k].0, (a[k].1 + c.1) as u32)));
                assert forall|i: int, j: int| 0 <= i < j < r.len() implies r[i].0.id@
                    != r[j].0.id@ by {
                    assert(r[i].0.id@ == a[i].0.id@);
                    assert(r[j].0.id@ == a[j].0.id@);
                }
                assert forall|m: int| 0 <= m < a.len() implies r[m].0.id@ == a[m].0.id@ by {}
                lemma_find_ids_same(a, r);
            },
            None => {
                assert(r == a.push(c));
                assert(r.drop_last() =~= a);
                lemma_find_id_push(a, c);
            },
        }
        assert forall|k: int| 0 <= k < inc.len() implies find_id(r, (#[trigger] inc[k]).0.id@)
            is Some by {
            if k < inc.len() - 1 {
                assert(inc[k] == p[k]);
                lemma_find_id_facts(a, p[k].0.id@);
                lemma_find_id_facts(r, p[k].0.id@);
            } else {
                lemma_find_id_facts(r, c.0.id@);
            }
        }
        assert forall|k: int| 0 <= k < all.len() implies find_id(r, (#[trigger] all[k]).0.id@)
            is Some by {
            lemma_find_id_facts(a, all[k].0.id@);
            lemma_find_id_facts(r, all[k].0.id@);
        }
        assert(p.push(c) =~= inc);
        lemma_total_push(p, c);
    }
}

proof fn lemma_total_push(s: Seq<(Card, u32)>, c: (Card, u32))
    ensures
        total_quantity(s.push(c)) == total_quantity(s) + c.1,
{
    assert(s.push(c).drop_last() =~= s);
}

/// Two sequences with the same ids, position by position, give the same
/// lookups.
proof fn lemma_find_ids_same(a: Seq<(Card, u32)>, r: Seq<(Card, u32)>)
    requires
        a.len() == r.len(),
        forall|m: int| 0 <= m < a.len() ==> r[m].0.id@ == a[m].0.id@,
    ensures
        forall|id: Seq<char>| find_id(r, id) == find_id(a, id),
{
    assert forall|id: Seq<char>| find_id(r, id) == find_id(a, id) by {
        lemma_find_id_facts(a, id);
        lemma_find_id_facts(r, id);
        match (find_id(a, id), find_id(r, id)) {
            (Some(x), Some(y)) => {
                if x < y {
                    assert(r[x].0.id@ == id);
                } else if y < x {
                    assert(a[y].0.id@ == id);
                }
            },
            (Some(x), None) => {
                assert(r[x].0.id@ == id);
            },
            (None, Some(y)) => {
                assert(a[y].0.id@ == id);
            },
            (None, None) => {},
        }
    }
}

/// Appending a card with a new id keeps ids distinct.
proof fn lemma_find_id_push(a: Seq<(Card, u32)>, c: (Card, u32))
    requires
        ids_distinct(a),
        find_id(a, c.0.id@) is None,
    ensures
        ids_distinct(a.push(c)),
{
    lemma_find_id_facts(a, c.0.id@);
    let r = a.push(c);
    assert forall|i: int, j: int| 0 <= i < j < r.len() implies r[i].0.id@ != r[j].0.id@ by {
        if j == a.len() {
            assert(r[i] == a[i]);
        } else {
            assert(r[i] == a[i]);
            assert(r[j] == a[j]);
        }
    }
}

// ------------------------------------------------------------------
// Counting copies and filling the last sheet
// ------------------------------------------------------------------

/// The total number of copies, when it fits in a `u32`.
pub fn checked_total(quantities: &Vec<u32>) -> (r: Option<u32>)
    ensures
        match r {
            Some(t) => t == total_of(quantities@),
            None => total_of(quantities@) > u32::MAX,
        },
{
    let mut t: u64 = 0;
    let mut i: usize = 0;
    proof {
        assert(quantities@.take(0) =~= Seq::<u32>::empty());
    }
    while i < quantities.len()
        invariant
            i <= quantities.len(),
            t == total_of(quantities@.take(i as int)),
            t <= u32::MAX,
        decreases quantities.len() - i,
    {
        proof {
            let s = quantities@.take(i + 1);
            assert(s.drop_last() =~= quantities@.take(i as int));
        }
        t = t + quantities[i] as u64;
        if t > 0xffff_ffff {
            proof {
                lemma_total_prefix(quantities@, i + 1);
            }
            return None;
        }
        i += 1;
    }
    proof {
        assert(quantities@.take(quantities.len() as int) =~= quantities@);
    }
    Some(t as u32)
}

proof fn lemma_total_prefix(q: Seq<u32>, k: int)
    requires
        0 <= k <= q.len(),
    ensures
        total_of(q.take(k)) <= total_of(q),
    decreases q.len() - k,
{
    if k < q.len() {
        assert(q.drop_last().take(k) =~= q.take(k));
        lemma_total_prefix(q.drop_last(), k);
    } else {
        assert(q.take(k) =~= q);
    }
}

/// How many extra cards fill the last sheet: none when the copies already
/// fill whole sheets, else the empty slots of the last sheet.
pub fn filler_needed(total: usize, per_page: usize) -> (n: usize)
    requires
        per_page > 0,
    ensures
        n == if total % per_page == 0 {
            0
        } else {
            per_page - total % per_page
        },
        n < per_page,
        (total + n) % (per_page as int) == 0,
{
    let remainder = total % per_page;
    let n = if remainder > 0 {
        per_page - remainder
    } else {
        0
    };
    proof {
        vstd::arithmetic::div_mod::lemma_fundamental_div_mod(total as int, per_page as int);
        let q = (total as int) / (per_page as int);
        if remainder > 0 {
            let d = per_page as int;
            assert((q + 1) * d == d * q + d) by (nonlinear_arith);
            vstd::arithmetic::div_mod::lemma_fundamental_div_mod_converse(
                total + n,
                per_page as int,
                q + 1,
                0,
            );
        }
    }
    n
}

// ------------------------------------------------------------------
// Downloading each card once
// ------------------------------------------------------------------

/// For each id, the index of its first occurrence: an item whose index is
/// its own is downloaded, any other reuses the download of that index.
pub fn first_occurrences_of(ids: &Vec<String>) -> (firsts: Vec<usize>)
    ensures
        firsts.len() == ids.len(),
        forall|i: int|
            0 <= i < ids.len() ==> {
                &&& #[trigger] firsts@[i] <= i
                &&& ids@[firsts@[i] as int]@ == ids@[i]@
                &&& forall|j: int| 0 <= j < firsts@[i] ==> ids@[j]@ != ids@[i]@
            },
{
    let mut firsts: Vec<usize> = Vec::new();
    let mut i: usize = 0;
    while i < ids.len()
        invariant
            i <= ids.len(),
            firsts.len() == i,
            forall|m: int|
                0 <= m < i ==> {
                    &&& #[trigger] firsts@[m] <= m
                    &&& ids@[firsts@[m] as int]@ == ids@[m]@
                    &&& forall|j: int| 0 <= j < firsts@[m] ==> ids@[j]@ != ids@[m]@
                },
        decreases ids.len() - i,
    {
        let mut j: usize = 0;
        while j < i && ids[j] != ids[i]
            invariant
                j <= i < ids.len(),
                forall|m: int| 0 <= m < j ==> ids@[m]@ != ids@[i as int]@,
            decreases i - j,
        {
            j += 1;
        }
        firsts.push(j);
        i += 1;
    }
    firsts
}

} // verus!
