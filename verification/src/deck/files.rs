//! Which files of a folder are Cockatrice decks, and the order in which
//! they are read: by file name.
use vstd::prelude::*;

use crate::text::{chars_of, rfind_char, rfind_char_exec};

verus! {

/// A file name with the extension `cod`: a last `.` that is not the first
/// character, followed by `cod` (as `Path::extension` reads it).
pub open spec fn is_cod_name(name: Seq<char>) -> bool {
    match rfind_char(name, '.') {
        Some(p) => p > 0 && name.skip(p + 1) == seq!['c', 'o', 'd'],
        None => false,
    }
}

/// Whether the name of a file has the extension `cod`.
pub fn is_cod_file(name: &str) -> (b: bool)
    ensures
        b == is_cod_name(name@),
{
    let s = chars_of(name);
    match rfind_char_exec(&s, '.') {
        None => false,
        Some(p) => {
            if p == 0 || s.len() - (p + 1) != 3 {
                proof {
                    if p > 0 {
                        assert(s@.skip(p + 1).len() != 3);
                    }
                }
                false
            } else {
                let b = s[p + 1] == 'c' && s[p + 2] == 'o' && s[p + 3] == 'd';
                proof {
                    let t = s@.skip(p + 1);
                    if b {
                        assert(t =~= seq!['c', 'o', 'd']);
                    } else {
                        if t == seq!['c', 'o', 'd'] {
                            assert(t[0] == s@[p + 1]);
                            assert(t[1] == s@[p + 2]);
                            assert(t[2] == s@[p + 3]);
                        }
                    }
                }
                b
            }
        },
    }
}

/// `a` comes no later than `b` in the order of their characters' code
/// points (which is also the order of their UTF-8 bytes).
pub open spec fn name_le(a: Seq<char>, b: Seq<char>) -> bool
    decreases a.len(),
{
    if a.len() == 0 {
        true
    } else if b.len() == 0 {
        false
    } else if a[0] != b[0] {
        a[0] < b[0]
    } else {
        name_le(a.drop_first(), b.drop_first())
    }
}

proof fn lemma_name_le_total(a: Seq<char>, b: Seq<char>)
    ensures
        name_le(a, b) || name_le(b, a),
    decreases a.len(),
{
    if a.len() > 0 && b.len() > 0 && a[0] == b[0] {
        lemma_name_le_total(a.drop_first(), b.drop_first());
    }
}

proof fn lemma_name_le_trans(a: Seq<char>, b: Seq<char>, c: Seq<char>)
    requires
        name_le(a, b),
        name_le(b, c),
    ensures
        name_le(a, c),
    decreases a.len(),
{
    if a.len() > 0 && b.len() > 0 && c.len() > 0 && a[0] == b[0] && b[0] == c[0] {
        lemma_name_le_trans(a.drop_first(), b.drop_first(), c.drop_first());
    }
}

fn name_le_exec(a: &Vec<char>, b: &Vec<char>) -> (r: bool)
    ensures
        r == name_le(a@, b@),
{
    let mut i: usize = 0;
    assert(a@.skip(0) =~= a@);
    assert(b@.skip(0) =~= b@);
    while i < a.len() && i < b.len() && a[i] == b[i]
        invariant
            i <= a.len(),
            i <= b.len(),
            name_le(a@, b@) == name_le(a@.skip(i as int), b@.skip(i as int)),
        decreases a.len() - i,
    {
        proof {
            assert(a@.skip(i as int).drop_first() =~= a@.skip(i + 1));
            assert(b@.skip(i as int).drop_first() =~= b@.skip(i + 1));
        }
        i += 1;
    }
    if i == a.len() {
        true
    } else if i == b.len() {
        false
    } else {
        a[i] < b[i]
    }
}

/// The names as character sequences.
pub open spec fn name_views(names: Seq<String>) -> Seq<Seq<char>> {
    names.map_values(|s: String| s@)
}

/// The indices of the `.cod` files among `names`, ordered by name: every
/// `.cod` name's index once, no other index, names in ascending order (as
/// `sort_by_key` on the file names orders them).
pub fn cod_file_order(names: &Vec<String>) -> (r: Vec<usize>)
    ensures
        forall|k: int| 0 <= k < r.len() ==> #[trigger] r@[k] < names.len() && is_cod_name(names@[r@[k] as int]@),
        forall|i: int| 0 <= i < names.len() && is_cod_name(names@[i]@) ==> r@.contains(i as usize),
        forall|j: int, k: int| 0 <= j < k < r.len() ==> r@[j] != r@[k],
        forall|j: int, k: int|
            0 <= j < k < r.len() ==> name_le(names@[r@[j] as int]@, names@[r@[k] as int]@),
{
    let mut keys: Vec<Vec<char>> = Vec::new();
    let mut n: usize = 0;
    while n < names.len()
        invariant
            n <= names.len(),
            keys.len() == n,
            forall|i: int| 0 <= i < n ==> #[trigger] keys@[i]@ == names@[i]@,
        decreases names.len() - n,
    {
        keys.push(chars_of(names[n].as_str()));
        n += 1;
    }
    let mut r: Vec<usize> = Vec::new();
    let mut i: usize = 0;
    while i < names.len()
        invariant
            i <= names.len(),
            keys.len() == names.len(),
            forall|m: int| 0 <= m < names.len() ==> #[trigger] keys@[m]@ == names@[m]@,
            forall|k: int| 0 <= k < r.len() ==> #[trigger] r@[k] < i && is_cod_name(names@[r@[k] as int]@),
            forall|m: int| 0 <= m < i && is_cod_name(names@[m]@) ==> r@.contains(m as usize),
            forall|j: int, k: int| 0 <= j < k < r.len() ==> r@[j] != r@[k],
            forall|j: int, k: int|
                0 <= j < k < r.len() ==> name_le(names@[r@[j] as int]@, names@[r@[k] as int]@),
        decreases names.len() - i,
    {
        if is_cod_file(names[i].as_str()) {
            let mut p: usize = 0;
            while p < r.len() && name_le_exec(&keys[r[p]], &keys[i])
                invariant
                    p <= r.len(),
                    i < names.len(),
                    keys.len() == names.len(),
                    forall|m: int| 0 <= m < names.len() ==> #[trigger] keys@[m]@ == names@[m]@,
                    forall|k: int| 0 <= k < r.len() ==> #[trigger] r@[k] < i,
                    forall|q: int| 0 <= q < p ==> name_le(names@[r@[q] as int]@, names@[i as int]@),
                decreases r.len() - p,
            {
                p += 1;
            }
            let ghost before = r@;
            proof {
                if p < r.len() {
                    lemma_name_le_total(names@[r@[p as int] as int]@, names@[i as int]@);
                }
            }
            r.insert(p, i);
            proof {
                assert forall|j: int, k: int| 0 <= j < k < r.len() implies name_le(
                    names@[r@[j] as int]@,
                    names@[r@[k] as int]@,
                ) by {
                    if j < p && k == p {
                    } else if j == p && k > p {
                        let x = names@[i as int]@;
                        let y = names@[before[p as int] as int]@;
                        let z = names@[before[k - 1] as int]@;
                        if k - 1 > p {
                            lemma_name_le_trans(x, y, z);
                        }
                    } else if j < p && k > p {
                        assert(r@[j] == before[j]);
                        assert(r@[k] == before[k - 1]);
                    } else if j > p {
                        assert(r@[j] == before[j - 1]);
                        assert(r@[k] == before[k - 1]);
                    } else {
                        assert(r@[j] == before[j]);
                        assert(r@[k] == before[k]);
                    }
                }
                assert forall|m: int| 0 <= m < i + 1 && is_cod_name(names@[m]@) implies r@.contains(
                    m as usize,
                ) by {
                    if m == i {
                        assert(r@[p as int] == i);
                    } else {
                        let k = choose|k: int| 0 <= k < before.len() && before[k] == m as usize;
                        if k < p {
                            assert(r@[k] == before[k]);
                        } else {
                            assert(r@[k + 1] == before[k]);
                        }
                    }
                }
                assert forall|k: int| 0 <= k < r.len() implies #[trigger] r@[k] < i + 1
                    && is_cod_name(names@[r@[k] as int]@) by {
                    if k < p {
                        assert(r@[k] == before[k]);
                    } else if k > p {
                        assert(r@[k] == before[k - 1]);
                    }
                }
                assert forall|j: int, k: int| 0 <= j < k < r.len() implies r@[j] != r@[k] by {
                    if j < p {
                        assert(r@[j] == before[j]);
                    } else if j > p {
                        assert(r@[j] == before[j - 1]);
                    }
                    if k < p {
                        assert(r@[k] == before[k]);
                    } else if k > p {
                        assert(r@[k] == before[k - 1]);
                    }
                }
            }
        }
        i += 1;
    }
    r
}

} // verus!
