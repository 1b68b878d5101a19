//! Sorting by name.

use vstd::prelude::*;

verus! {

/// Lexicographic order by code point, which is the order of the UTF-8 bytes.
pub open spec fn text_less(a: Seq<char>, b: Seq<char>) -> bool
    decreases a.len(),
{
    if b.len() == 0 {
        false
    } else if a.len() == 0 {
        true
    } else if a[0] != b[0] {
        a[0] < b[0]
    } else {
        text_less(a.skip(1), b.skip(1))
    }
}

/// The order of catalog entries: by name, and by number among equal names.
pub open spec fn entry_less(a: (Seq<char>, u64), b: (Seq<char>, u64)) -> bool {
    text_less(a.0, b.0) || (a.0 == b.0 && a.1 < b.1)
}

proof fn lemma_text_trichotomy(a: Seq<char>, b: Seq<char>)
    ensures
        text_less(a, b) || text_less(b, a) || a == b,
        !(text_less(a, b) && text_less(b, a)),
        text_less(a, b) ==> a != b,
    decreases a.len(),
{
    if a.len() > 0 && b.len() > 0 {
        if a[0] == b[0] {
            lemma_text_trichotomy(a.skip(1), b.skip(1));
            assert(a =~= seq![a[0]] + a.skip(1));
            assert(b =~= seq![b[0]] + b.skip(1));
        }
    } else if a.len() == 0 && b.len() == 0 {
        assert(a =~= b);
    }
}

proof fn lemma_text_transitive(a: Seq<char>, b: Seq<char>, c: Seq<char>)
    requires
        text_less(a, b),
        text_less(b, c),
    ensures
        text_less(a, c),
    decreases a.len(),
{
    if a.len() > 0 && a[0] == b[0] && b[0] == c[0] {
        lemma_text_transitive(a.skip(1), b.skip(1), c.skip(1));
    }
}

/// Of two different entries exactly one comes first.
pub proof fn law_entries_ordered(a: (Seq<char>, u64), b: (Seq<char>, u64))
    ensures
        entry_less(a, b) || entry_less(b, a) || a == b,
        !(entry_less(a, b) && entry_less(b, a)),
        entry_less(a, b) ==> a != b,
{
    lemma_text_trichotomy(a.0, b.0);
}

/// What comes before an entry comes before everything that the entry comes
/// before.
pub proof fn law_order_transitive(
    a: (Seq<char>, u64),
    b: (Seq<char>, u64),
    c: (Seq<char>, u64),
)
    requires
        entry_less(a, b),
        entry_less(b, c),
    ensures
        entry_less(a, c),
{
    if text_less(a.0, b.0) && text_less(b.0, c.0) {
        lemma_text_transitive(a.0, b.0, c.0);
    }
}

/// Something to sort: a name and a number.
pub struct Entry {
    pub name: Vec<char>,
    pub id: u64,
}

impl View for Entry {
    type V = (Seq<char>, u64);

    open spec fn view(&self) -> (Seq<char>, u64) {
        (self.name@, self.id)
    }
}

fn comes_before(a: &Entry, b: &Entry) -> (r: bool)
    ensures
        r == entry_less(a@, b@),
{
    let mut i: usize = 0;
    proof {
        assert(a.name@.skip(0) =~= a.name@);
        assert(b.name@.skip(0) =~= b.name@);
    }
    while i < a.name.len() && i < b.name.len()
        invariant
            i <= a.name@.len(),
            i <= b.name@.len(),
            a.name@.take(i as int) == b.name@.take(i as int),
            text_less(a.name@, b.name@) == text_less(
                a.name@.skip(i as int),
                b.name@.skip(i as int),
            ),
        decreases a.name@.len() - i,
    {
        if a.name[i] != b.name[i] {
            proof {
                assert(a.name@.skip(i as int)[0] == a.name@[i as int]);
                assert(b.name@.skip(i as int)[0] == b.name@[i as int]);
            }
            return a.name[i] < b.name[i];
        }
        proof {
            assert(a.name@.skip(i as int).skip(1) =~= a.name@.skip(i + 1));
            assert(b.name@.skip(i as int).skip(1) =~= b.name@.skip(i + 1));
            assert(a.name@.take(i + 1) =~= a.name@.take(i as int).push(a.name@[i as int]));
            assert(b.name@.take(i + 1) =~= b.name@.take(i as int).push(b.name@[i as int]));
        }
        i = i + 1;
    }
    if a.name.len() != b.name.len() {
        return a.name.len() < b.name.len();
    }
    proof {
        assert(a.name@.take(i as int) =~= a.name@);
        assert(b.name@.take(i as int) =~= b.name@);
    }
    a.id < b.id
}

/// `order` lists positions of `entries`, each entry before the next.
pub open spec fn ascending(entries: Seq<Entry>, order: Seq<usize>) -> bool {
    forall|i: int, j: int|
        0 <= i < j < order.len() ==> entry_less(
            entries[#[trigger] order[i] as int]@,
            entries[#[trigger] order[j] as int]@,
        )
}

/// `order` lists exactly the positions from `lo` up to `hi`.
pub open spec fn covers(order: Seq<usize>, lo: int, hi: int) -> bool {
    &&& forall|i: int| 0 <= i < order.len() ==> lo <= #[trigger] order[i] < hi
    &&& forall|p: usize| lo <= p < hi ==> order.contains(p)
}

fn merge(
    entries: &Vec<Entry>,
    left: &Vec<usize>,
    right: &Vec<usize>,
    lo: usize,
    mid: usize,
    hi: usize,
) -> (r: Vec<usize>)
    requires
        lo <= mid <= hi <= entries@.len(),
        forall|i: int, j: int| 0 <= i < j < entries@.len() ==> entries@[i].id != entries@[j].id,
        ascending(entries@, left@),
        ascending(entries@, right@),
        covers(left@, lo as int, mid as int),
        covers(right@, mid as int, hi as int),
    ensures
        ascending(entries@, r@),
        covers(r@, lo as int, hi as int),
{
    let mut r: Vec<usize> = Vec::new();
    let mut i: usize = 0;
    let mut j: usize = 0;
    while i < left.len() || j < right.len()
        invariant
            lo <= mid <= hi <= entries@.len(),
            forall|i: int, j: int| 0 <= i < j < entries@.len() ==> entries@[i].id != entries@[j].id,
            ascending(entries@, left@),
            ascending(entries@, right@),
            covers(left@, lo as int, mid as int),
            covers(right@, mid as int, hi as int),
            i <= left@.len(),
            j <= right@.len(),
            ascending(entries@, r@),
            forall|k: int| 0 <= k < r@.len() ==> lo <= #[trigger] r@[k] < hi,
            forall|k: int| 0 <= k < i ==> r@.contains(#[trigger] left@[k]),
            forall|k: int| 0 <= k < j ==> r@.contains(#[trigger] right@[k]),
            forall|k: int, m: int|
                0 <= k < r@.len() && i <= m < left@.len() ==> entry_less(
                    entries@[#[trigger] r@[k] as int]@,
                    entries@[#[trigger] left@[m] as int]@,
                ),
            forall|k: int, m: int|
                0 <= k < r@.len() && j <= m < right@.len() ==> entry_less(
                    entries@[#[trigger] r@[k] as int]@,
                    entries@[#[trigger] right@[m] as int]@,
                ),
        decreases left@.len() - i + right@.len() - j,
    {
        let ghost before = r@;
        let take_left = if i == left.len() {
            false
        } else if j == right.len() {
            true
        } else {
            comes_before(&entries[left[i]], &entries[right[j]])
        };
        if take_left {
            let p: usize = left[i];
            r.push(p);
            proof {
                assert forall|m: int| j <= m < right@.len() implies entry_less(
                    entries@[p as int]@,
                    entries@[#[trigger] right@[m] as int]@,
                ) by {
                    if m > j {
                        law_order_transitive(
                            entries@[p as int]@,
                            entries@[right@[j as int] as int]@,
                            entries@[right@[m] as int]@,
                        );
                    }
                }
            }
            i = i + 1;
        } else {
            let p: usize = right[j];
            r.push(p);
            proof {
                assert forall|m: int| i <= m < left@.len() implies entry_less(
                    entries@[p as int]@,
                    entries@[#[trigger] left@[m] as int]@,
                ) by {
                    let first = left@[i as int];
                    law_entries_ordered(entries@[first as int]@, entries@[p as int]@);
                    assert(entries@[first as int].id != entries@[p as int].id);
                    if m > i {
                        law_order_transitive(
                            entries@[p as int]@,
                            entries@[first as int]@,
                            entries@[left@[m] as int]@,
                        );
                    }
                }
            }
            j = j + 1;
        }
        proof {
            let p = r@.last();
            assert(r@ == before.push(p));
            assert forall|k: int| 0 <= k < i implies r@.contains(#[trigger] left@[k]) by {
                if before.contains(left@[k]) {
                    let w = choose|w: int| 0 <= w < before.len() && before[w] == left@[k];
                    assert(r@[w] == left@[k]);
                } else {
                    assert(r@[before.len() as int] == left@[k]);
                }
            }
            assert forall|k: int| 0 <= k < j implies r@.contains(#[trigger] right@[k]) by {
                if before.contains(right@[k]) {
                    let w = choose|w: int| 0 <= w < before.len() && before[w] == right@[k];
                    assert(r@[w] == right@[k]);
                } else {
                    assert(r@[before.len() as int] == right@[k]);
                }
            }
        }
    }
    proof {
        assert forall|p: usize| lo <= p < hi implies r@.contains(p) by {
            if p < mid {
                assert(left@.contains(p));
                let k = choose|k: int| 0 <= k < left@.len() && left@[k] == p;
                assert(r@.contains(left@[k]));
            } else {
                assert(right@.contains(p));
                let k = choose|k: int| 0 <= k < right@.len() && right@[k] == p;
                assert(r@.contains(right@[k]));
            }
        }
    }
    r
}

fn sort_range(entries: &Vec<Entry>, lo: usize, hi: usize) -> (r: Vec<usize>)
    requires
        lo <= hi <= entries@.len(),
        forall|i: int, j: int| 0 <= i < j < entries@.len() ==> entries@[i].id != entries@[j].id,
    ensures
        ascending(entries@, r@),
        covers(r@, lo as int, hi as int),
    decreases hi - lo,
{
    if hi - lo == 0 {
        return Vec::new();
    }
    if hi - lo == 1 {
        let mut r: Vec<usize> = Vec::new();
        r.push(lo);
        proof {
            assert(r@[0] == lo);
        }
        return r;
    }
    let mid: usize = lo + (hi - lo) / 2;
    let left = sort_range(entries, lo, mid);
    let right = sort_range(entries, mid, hi);
    merge(entries, &left, &right, lo, mid, hi)
}

/// The positions of `entries` in ascending order, by merge sort. The numbers
/// must differ.
pub fn sort_entries(entries: &Vec<Entry>) -> (order: Vec<usize>)
    requires
        forall|i: int, j: int| 0 <= i < j < entries@.len() ==> entries@[i].id != entries@[j].id,
    ensures
        ascending(entries@, order@),
        covers(order@, 0, entries@.len() as int),
{
    sort_range(entries, 0, entries.len())
}

/// A name comes before another exactly if it is a proper beginning of it, or
/// has the smaller character at the first place where they differ.
pub proof fn law_names_in_code_point_order(a: Seq<char>, b: Seq<char>)
    ensures
        text_less(a, b) <==> exists|k: int| #[trigger] differ_at(a, b, k),
    decreases a.len(),
{
    if b.len() == 0 {
    } else if a.len() == 0 {
        assert(a.take(0) =~= b.take(0));
        assert(differ_at(a, b, 0));
    } else if a[0] != b[0] {
        assert(a.take(0) =~= b.take(0));
        if a[0] < b[0] {
            assert(differ_at(a, b, 0));
        }
        assert forall|k: int| #[trigger] differ_at(a, b, k) implies a[0] < b[0] by {
            if k > 0 {
                assert(a.take(k)[0] == a[0] && b.take(k)[0] == b[0]);
            }
        }
    } else {
        let x = a.skip(1);
        let y = b.skip(1);
        law_names_in_code_point_order(x, y);
        if text_less(x, y) {
            let k = choose|k: int| #[trigger] differ_at(x, y, k);
            assert(a.take(k + 1) =~= seq![a[0]] + x.take(k));
            assert(b.take(k + 1) =~= seq![b[0]] + y.take(k));
            assert(differ_at(a, b, k + 1));
        }
        assert forall|k: int| #[trigger] differ_at(a, b, k) implies text_less(x, y) by {
            assert(k > 0);
            assert(x.take(k - 1) =~= a.take(k).skip(1));
            assert(y.take(k - 1) =~= b.take(k).skip(1));
            assert(differ_at(x, y, k - 1));
        }
    }
}

/// `a` and `b` agree before `k`, and there `a` ends while `b` goes on, or has
/// the smaller character.
pub open spec fn differ_at(a: Seq<char>, b: Seq<char>, k: int) -> bool {
    &&& 0 <= k <= a.len()
    &&& k < b.len()
    &&& a.take(k) == b.take(k)
    &&& k == a.len() || a[k] < b[k]
}

/// Entries with different names are ordered by name, and entries with the same
/// name by number.
pub proof fn law_entries_by_name(a: (Seq<char>, u64), b: (Seq<char>, u64))
    ensures
        a.0 != b.0 ==> (entry_less(a, b) <==> text_less(a.0, b.0)),
        a.0 == b.0 ==> (entry_less(a, b) <==> a.1 < b.1),
{
    lemma_text_trichotomy(a.0, b.0);
}

} // verus!
