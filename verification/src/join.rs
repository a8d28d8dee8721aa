use vstd::prelude::*;

use crate::chars::{lex_lt, lex_lt_irrefl, lex_lt_total, lex_lt_trans, str_eq, str_lt};
use crate::count::{DatasetCount, LayerCountV};

verus! {

/// One row of a count comparison. An absent optional means the layer was not
/// seen on that side; the difference is widened to a signed 128-bit value so
/// that subtracting two unsigned 64-bit counts can never wrap.
#[derive(Debug, PartialEq)]
pub struct CountDifference {
    pub layer: String,
    pub left_count: Option<u64>,
    pub right_count: Option<u64>,
    pub difference: Option<i128>,
}

/// The mathematical value of a `CountDifference`.
pub ghost struct CountDifferenceV {
    pub layer: Seq<char>,
    pub left_count: Option<u64>,
    pub right_count: Option<u64>,
    pub difference: Option<i128>,
}

impl View for CountDifference {
    type V = CountDifferenceV;

    open spec fn view(&self) -> CountDifferenceV {
        CountDifferenceV {
            layer: self.layer@,
            left_count: self.left_count,
            right_count: self.right_count,
            difference: self.difference,
        }
    }
}

/// The rows of one comparison, in the order the join produced them.
pub struct CountDifferenceVec(pub Vec<CountDifference>);

impl View for CountDifferenceVec {
    type V = Seq<CountDifferenceV>;

    open spec fn view(&self) -> Seq<CountDifferenceV> {
        self.0@.map_values(|d: CountDifference| d@)
    }
}

impl CountDifferenceVec {
    /// An empty row list, ready to be filled.
    pub fn new() -> (r: CountDifferenceVec)
        ensures
            r@ =~= Seq::<CountDifferenceV>::empty(),
    {
        CountDifferenceVec(Vec::new())
    }

    /// Wrap an already-built list of rows, keeping its order.
    pub fn from_vec(v: Vec<CountDifference>) -> (r: CountDifferenceVec)
        ensures
            r@ == v@.map_values(|d: CountDifference| d@),
    {
        CountDifferenceVec(v)
    }
}

impl From<Vec<CountDifference>> for CountDifferenceVec {
    fn from(v: Vec<CountDifference>) -> (r: CountDifferenceVec) {
        CountDifferenceVec(v)
    }
}

impl vstd::std_specs::convert::FromSpecImpl<Vec<CountDifference>> for CountDifferenceVec {
    open spec fn obeys_from_spec() -> bool {
        true
    }

    open spec fn from_spec(v: Vec<CountDifference>) -> CountDifferenceVec {
        CountDifferenceVec(v)
    }
}

/// The count that a sequence of records gives a layer name: the count of the
/// last record bearing that name, since a later record overrides an earlier
/// one of the same name, or nothing when no record bears it.
pub open spec fn lookup(s: Seq<LayerCountV>, name: Seq<char>) -> Option<u64>
    decreases s.len(),
{
    if s.len() == 0 {
        None
    } else if s.last().layer == name {
        Some(s.last().count)
    } else {
        lookup(s.drop_last(), name)
    }
}

/// A name with a defined count occurs in the sequence.
pub proof fn lookup_some_occurs(s: Seq<LayerCountV>, name: Seq<char>)
    requires
        lookup(s, name).is_some(),
    ensures
        exists|k: int| 0 <= k < s.len() && #[trigger] s[k].layer == name,
    decreases s.len(),
{
    if s.len() > 0 {
        if s.last().layer == name {
            assert(s[s.len() - 1].layer == name);
        } else {
            lookup_some_occurs(s.drop_last(), name);
            let k = choose|k: int|
                0 <= k < s.drop_last().len() && #[trigger] s.drop_last()[k].layer == name;
            assert(s[k].layer == name);
        }
    }
}

/// What one output row must say, given the two inputs. A layer seen only on
/// the right is reported with an explicit zero left count; one seen only on
/// the left is reported with the right count absent. The asymmetry is the
/// component's documented behaviour.
pub open spec fn join_row_ok(
    left: Seq<LayerCountV>,
    right: Seq<LayerCountV>,
    row: CountDifferenceV,
) -> bool {
    match (lookup(left, row.layer), lookup(right, row.layer)) {
        (Some(l), Some(r)) => row.left_count == Some(l) && row.right_count == Some(r)
            && row.difference == Some((l - r) as i128),
        (Some(l), None) => row.left_count == Some(l) && row.right_count == None::<u64>
            && row.difference == Some(l as i128),
        (None, Some(r)) => row.left_count == Some(0u64) && row.right_count == Some(r)
            && row.difference == Some((0 - r) as i128),
        (None, None) => false,
    }
}

/// The working table of the join: one slot per layer name, kept strictly
/// sorted by name.
pub open spec fn entries_sorted(es: Seq<(String, Option<u64>, Option<u64>)>) -> bool {
    forall|i: int, j: int|
        0 <= i < j < es.len() ==> lex_lt(#[trigger] es[i].0@, #[trigger] es[j].0@)
}

/// Strict sorting makes the names pairwise distinct.
proof fn entries_sorted_distinct(es: Seq<(String, Option<u64>, Option<u64>)>, i: int, j: int)
    requires
        entries_sorted(es),
        0 <= i < es.len(),
        0 <= j < es.len(),
        i != j,
    ensures
        es[i].0@ != es[j].0@,
{
    if i < j {
        lex_lt_irrefl(es[i].0@);
    } else {
        lex_lt_irrefl(es[j].0@);
    }
}

/// Where a name stands, or belongs, in the sorted working table: either the
/// index that already bears the name, or the index at which inserting the
/// name keeps the table sorted and the assurance that the name is absent.
fn find_pos(es: &Vec<(String, Option<u64>, Option<u64>)>, name: &String) -> (p: (usize, bool))
    requires
        entries_sorted(es@),
    ensures
        p.0 <= es@.len(),
        p.1 ==> p.0 < es@.len() && es@[p.0 as int].0@ == name@,
        !p.1 ==> forall|j: int| 0 <= j < p.0 ==> lex_lt(#[trigger] es@[j].0@, name@),
        !p.1 ==> forall|j: int| p.0 <= j < es@.len() ==> lex_lt(name@, #[trigger] es@[j].0@),
        !p.1 ==> forall|j: int| 0 <= j < es@.len() ==> #[trigger] es@[j].0@ != name@,
{
    let n = es.len();
    let mut i: usize = 0;
    while i < n && str_lt(es[i].0.as_str(), name.as_str())
        invariant
            i <= n,
            n == es@.len(),
            entries_sorted(es@),
            forall|j: int| 0 <= j < i ==> lex_lt(#[trigger] es@[j].0@, name@),
        decreases n - i,
    {
        i = i + 1;
    }
    if i < n && str_eq(es[i].0.as_str(), name.as_str()) {
        (i, true)
    } else {
        proof {
            if i < es@.len() {
                lex_lt_total(name@, es@[i as int].0@);
            }
            assert forall|j: int| i <= j < es@.len() implies lex_lt(
                name@,
                #[trigger] es@[j].0@,
            ) by {
                if j > i {
                    lex_lt_trans(name@, es@[i as int].0@, es@[j].0@);
                }
            }
            assert forall|j: int| 0 <= j < es@.len() implies #[trigger] es@[j].0@ != name@ by {
                if j < i {
                    lex_lt_irrefl(name@);
                } else {
                    lex_lt_irrefl(name@);
                }
            }
        }
        (i, false)
    }
}

/// What one slot of the working table must say about a name, given the part
/// of each side absorbed so far.
pub open spec fn entry_ok(
    left: Seq<LayerCountV>,
    right: Seq<LayerCountV>,
    e: (String, Option<u64>, Option<u64>),
) -> bool {
    match (lookup(left, e.0@), lookup(right, e.0@)) {
        (Some(l), Some(r)) => e.1 == Some(l) && e.2 == Some(r),
        (Some(l), None) => e.1 == Some(l) && e.2 == None::<u64>,
        (None, Some(r)) => e.1 == Some(0u64) && e.2 == Some(r),
        (None, None) => false,
    }
}

/// Some slot of the working table bears the name.
pub open spec fn has_name(es: Seq<(String, Option<u64>, Option<u64>)>, name: Seq<char>) -> bool {
    exists|j: int| 0 <= j < es.len() && (#[trigger] es[j]).0@ == name
}

proof fn has_name_insert(
    es: Seq<(String, Option<u64>, Option<u64>)>,
    pos: int,
    x: (String, Option<u64>, Option<u64>),
    name: Seq<char>,
)
    requires
        0 <= pos <= es.len(),
        has_name(es, name),
    ensures
        has_name(es.insert(pos, x), name),
{
    es.insert_ensures(pos, x);
    let j = choose|j: int| 0 <= j < es.len() && (#[trigger] es[j]).0@ == name;
    if j < pos {
        assert(es.insert(pos, x)[j] == es[j]);
    } else {
        assert(es.insert(pos, x)[j + 1] == es[j]);
    }
}

/// Absorbing one record on a side changes the count that side gives its
/// name, and no other.
proof fn lookup_push(s: Seq<LayerCountV>, v: LayerCountV, name: Seq<char>)
    ensures
        lookup(s.push(v), name) == if v.layer == name {
            Some(v.count)
        } else {
            lookup(s, name)
        },
{
    assert(s.push(v).drop_last() =~= s);
    assert(s.push(v).last() == v);
}

impl DatasetCount {
    /// Full outer join of two count tables on the layer name, reporting the
    /// per-layer count difference. A later record of a name overrides an
    /// earlier one of the same name on its side. The rows come back sorted
    /// strictly ascending by layer name, ordinal comparison; that order is
    /// part of the contract. Every name of either side is reported, and
    /// every reported row carries exactly the two sides' counts and their
    /// widened difference, as `join_row_ok` states.
    pub fn outer_join(&self, other: &DatasetCount) -> (r: Vec<CountDifference>)
        ensures
            forall|i: int|
                0 <= i < r@.len() ==> join_row_ok(self@, other@, (#[trigger] r@[i])@),
            forall|i: int, j: int|
                0 <= i < j < r@.len() ==> lex_lt((#[trigger] r@[i])@.layer, (#[trigger] r@[j])@.layer),
            forall|k: int|
                0 <= k < self@.len() ==> exists|i: int|
                    0 <= i < r@.len() && (#[trigger] r@[i])@.layer == (#[trigger] self@[k]).layer,
            forall|k: int|
                0 <= k < other@.len() ==> exists|i: int|
                    0 <= i < r@.len() && (#[trigger] r@[i])@.layer == (#[trigger] other@[k]).layer,
    {
        let ghost lv = self@;
        let ghost rv = other@;
        let mut entries: Vec<(String, Option<u64>, Option<u64>)> = Vec::new();

        // Absorb the left side: every left layer gets a slot with its count
        // and an empty right half.
        let mut i: usize = 0;
        proof {
            assert(lv.subrange(0, 0) =~= Seq::<LayerCountV>::empty());
        }
        while i < self.0.len()
            invariant
                i <= self.0.len(),
                lv == self@,
                self@.len() == self.0@.len(),
                entries_sorted(entries@),
                forall|j: int|
                    0 <= j < entries@.len() ==> entry_ok(
                        lv.subrange(0, i as int),
                        Seq::<LayerCountV>::empty(),
                        #[trigger] entries@[j],
                    ),
                forall|k: int| 0 <= k < i ==> has_name(entries@, (#[trigger] lv[k]).layer),
            decreases self.0.len() - i,
        {
            let lc = &self.0[i];
            proof {
                assert(lv[i as int] == self.0@[i as int]@);
                assert(lv.subrange(0, i + 1) =~= lv.subrange(0, i as int).push(lv[i as int]));
            }
            let ghost pre = lv.subrange(0, i as int);
            let ghost post = lv.subrange(0, i + 1);
            let (pos, found) = find_pos(&entries, &lc.layer);
            let ghost old_es = entries@;
            let t = (lc.layer.clone(), Some(lc.count), None::<u64>);
            if found {
                let _ = entries.remove(pos);
                entries.insert(pos, t);
                proof {
                    old_es.remove(pos as int).insert_ensures(pos as int, t);
                    old_es.remove_ensures(pos as int);
                    assert(entries@ =~= old_es.update(pos as int, t));
                    assert forall|j: int| 0 <= j < entries@.len() implies entry_ok(
                        post,
                        Seq::<LayerCountV>::empty(),
                        #[trigger] entries@[j],
                    ) by {
                        if j != pos {
                            entries_sorted_distinct(old_es, j, pos as int);
                            lookup_push(pre, lv[i as int], old_es[j].0@);
                        } else {
                            lookup_push(pre, lv[i as int], lv[i as int].layer);
                        }
                    }
                    assert forall|k: int| 0 <= k < i + 1 implies has_name(
                        entries@,
                        (#[trigger] lv[k]).layer,
                    ) by {
                        if k < i {
                            let j = choose|j: int|
                                0 <= j < old_es.len() && (#[trigger] old_es[j]).0@ == lv[k].layer;
                            assert(entries@[j].0@ == lv[k].layer);
                        } else {
                            assert(entries@[pos as int].0@ == lv[i as int].layer);
                        }
                    }
                    assert(entries_sorted(entries@)) by {
                        assert(forall|j: int|
                            0 <= j < entries@.len() ==> (#[trigger] entries@[j]).0@ == old_es[j].0@);
                    }
                }
            } else {
                entries.insert(pos, t);
                proof {
                    old_es.insert_ensures(pos as int, t);
                    assert forall|a: int, b: int| 0 <= a < b < entries@.len() implies lex_lt(
                        (#[trigger] entries@[a]).0@,
                        (#[trigger] entries@[b]).0@,
                    ) by {
                        if b < pos {
                        } else if a > pos {
                            assert(entries@[a] == old_es[a - 1]);
                            assert(entries@[b] == old_es[b - 1]);
                        } else if a < pos && b == pos {
                            assert(entries@[a] == old_es[a]);
                        } else if a == pos {
                            assert(entries@[b] == old_es[b - 1]);
                        } else {
                            assert(entries@[a] == old_es[a]);
                            assert(entries@[b] == old_es[b - 1]);
                        }
                    }
                    assert forall|j: int| 0 <= j < entries@.len() implies entry_ok(
                        post,
                        Seq::<LayerCountV>::empty(),
                        #[trigger] entries@[j],
                    ) by {
                        if j < pos {
                            assert(entries@[j] == old_es[j]);
                            lookup_push(pre, lv[i as int], old_es[j].0@);
                        } else if j == pos {
                            lookup_push(pre, lv[i as int], lv[i as int].layer);
                        } else {
                            assert(entries@[j] == old_es[j - 1]);
                            lookup_push(pre, lv[i as int], old_es[j - 1].0@);
                        }
                    }
                    assert forall|k: int| 0 <= k < i + 1 implies has_name(
                        entries@,
                        (#[trigger] lv[k]).layer,
                    ) by {
                        if k < i {
                            has_name_insert(old_es, pos as int, t, lv[k].layer);
                        } else {
                            assert(entries@[pos as int].0@ == lv[i as int].layer);
                        }
                    }
                }
            }
            i = i + 1;
        }
        proof {
            assert(lv.subrange(0, self.0.len() as int) =~= lv);
        }

        // Absorb the right side: a known name gets its right half filled, a
        // new name gets a slot with an explicit zero left count.
        let mut i: usize = 0;
        proof {
            assert(rv.subrange(0, 0) =~= Seq::<LayerCountV>::empty());
        }
        while i < other.0.len()
            invariant
                i <= other.0.len(),
                lv == self@,
                rv == other@,
                other@.len() == other.0@.len(),
                entries_sorted(entries@),
                forall|j: int|
                    0 <= j < entries@.len() ==> entry_ok(
                        lv,
                        rv.subrange(0, i as int),
                        #[trigger] entries@[j],
                    ),
                forall|k: int| 0 <= k < lv.len() ==> has_name(entries@, (#[trigger] lv[k]).layer),
                forall|k: int| 0 <= k < i ==> has_name(entries@, (#[trigger] rv[k]).layer),
            decreases other.0.len() - i,
        {
            let lc = &other.0[i];
            proof {
                assert(rv[i as int] == other.0@[i as int]@);
                assert(rv.subrange(0, i + 1) =~= rv.subrange(0, i as int).push(rv[i as int]));
            }
            let ghost pre = rv.subrange(0, i as int);
            let ghost post = rv.subrange(0, i + 1);
            let (pos, found) = find_pos(&entries, &lc.layer);
            let ghost old_es = entries@;
            if found {
                let old_t = entries.remove(pos);
                let t = (old_t.0, old_t.1, Some(lc.count));
                entries.insert(pos, t);
                proof {
                    old_es.remove(pos as int).insert_ensures(pos as int, t);
                    old_es.remove_ensures(pos as int);
                    assert(entries@ =~= old_es.update(pos as int, t));
                    assert forall|j: int| 0 <= j < entries@.len() implies entry_ok(
                        lv,
                        post,
                        #[trigger] entries@[j],
                    ) by {
                        if j != pos {
                            entries_sorted_distinct(old_es, j, pos as int);
                            lookup_push(pre, rv[i as int], old_es[j].0@);
                        } else {
                            lookup_push(pre, rv[i as int], rv[i as int].layer);
                        }
                    }
                    assert forall|k: int| 0 <= k < lv.len() implies has_name(
                        entries@,
                        (#[trigger] lv[k]).layer,
                    ) by {
                        let j = choose|j: int|
                            0 <= j < old_es.len() && (#[trigger] old_es[j]).0@ == lv[k].layer;
                        assert(entries@[j].0@ == lv[k].layer);
                    }
                    assert forall|k: int| 0 <= k < i + 1 implies has_name(
                        entries@,
                        (#[trigger] rv[k]).layer,
                    ) by {
                        if k < i {
                            let j = choose|j: int|
                                0 <= j < old_es.len() && (#[trigger] old_es[j]).0@ == rv[k].layer;
                            assert(entries@[j].0@ == rv[k].layer);
                        } else {
                            assert(entries@[pos as int].0@ == rv[i as int].layer);
                        }
                    }
                    assert(entries_sorted(entries@)) by {
                        assert(forall|j: int|
                            0 <= j < entries@.len() ==> (#[trigger] entries@[j]).0@ == old_es[j].0@);
                    }
                }
            } else {
                proof {
                    // The name is on no slot, so the left side never saw it.
                    if lookup(lv, lc.layer@).is_some() {
                        lookup_some_occurs(lv, lc.layer@);
                        let k = choose|k: int|
                            0 <= k < lv.len() && #[trigger] lv[k].layer == lc.layer@;
                        assert(has_name(old_es, lv[k].layer));
                        assert(false);
                    }
                }
                let t = (lc.layer.clone(), Some(0u64), Some(lc.count));
                entries.insert(pos, t);
                proof {
                    old_es.insert_ensures(pos as int, t);
                    assert forall|a: int, b: int| 0 <= a < b < entries@.len() implies lex_lt(
                        (#[trigger] entries@[a]).0@,
                        (#[trigger] entries@[b]).0@,
                    ) by {
                        if b < pos {
                        } else if a > pos {
                            assert(entries@[a] == old_es[a - 1]);
                            assert(entries@[b] == old_es[b - 1]);
                        } else if a < pos && b == pos {
                            assert(entries@[a] == old_es[a]);
                        } else if a == pos {
                            assert(entries@[b] == old_es[b - 1]);
                        } else {
                            assert(entries@[a] == old_es[a]);
                            assert(entries@[b] == old_es[b - 1]);
                        }
                    }
                    assert forall|j: int| 0 <= j < entries@.len() implies entry_ok(
                        lv,
                        post,
                        #[trigger] entries@[j],
                    ) by {
                        if j < pos {
                            assert(entries@[j] == old_es[j]);
                            lookup_push(pre, rv[i as int], old_es[j].0@);
                        } else if j == pos {
                            lookup_push(pre, rv[i as int], rv[i as int].layer);
                        } else {
                            assert(entries@[j] == old_es[j - 1]);
                            lookup_push(pre, rv[i as int], old_es[j - 1].0@);
                        }
                    }
                    assert forall|k: int| 0 <= k < lv.len() implies has_name(
                        entries@,
                        (#[trigger] lv[k]).layer,
                    ) by {
                        has_name_insert(old_es, pos as int, t, lv[k].layer);
                    }
                    assert forall|k: int| 0 <= k < i + 1 implies has_name(
                        entries@,
                        (#[trigger] rv[k]).layer,
                    ) by {
                        if k < i {
                            has_name_insert(old_es, pos as int, t, rv[k].layer);
                        } else {
                            assert(entries@[pos as int].0@ == rv[i as int].layer);
                        }
                    }
                }
            }
            i = i + 1;
        }
        proof {
            assert(rv.subrange(0, other.0.len() as int) =~= rv);
        }

        // Emit one difference row per slot, in the table's sorted order.
        let mut rows: Vec<CountDifference> = Vec::new();
        let mut j: usize = 0;
        while j < entries.len()
            invariant
                j <= entries@.len(),
                rows@.len() == j,
                entries_sorted(entries@),
                forall|jj: int|
                    0 <= jj < entries@.len() ==> entry_ok(lv, rv, #[trigger] entries@[jj]),
                forall|k: int| 0 <= k < lv.len() ==> has_name(entries@, (#[trigger] lv[k]).layer),
                forall|k: int| 0 <= k < rv.len() ==> has_name(entries@, (#[trigger] rv[k]).layer),
                forall|jj: int|
                    0 <= jj < j ==> (#[trigger] rows@[jj])@.layer == entries@[jj].0@,
                forall|jj: int| 0 <= jj < j ==> join_row_ok(lv, rv, (#[trigger] rows@[jj])@),
            decreases entries@.len() - j,
        {
            let e = &entries[j];
            proof {
                assert(entry_ok(lv, rv, entries@[j as int]));
            }
            let row = match (e.1, e.2) {
                (Some(l), Some(r)) => CountDifference {
                    layer: e.0.clone(),
                    left_count: Some(l),
                    right_count: Some(r),
                    difference: Some(l as i128 - r as i128),
                },
                (Some(l), None) => CountDifference {
                    layer: e.0.clone(),
                    left_count: Some(l),
                    right_count: None,
                    difference: Some(l as i128),
                },
                _ => {
                    proof {
                        assert(false);
                    }
                    CountDifference {
                        layer: String::new(),
                        left_count: None,
                        right_count: None,
                        difference: None,
                    }
                },
            };
            rows.push(row);
            j = j + 1;
        }
        proof {
            assert forall|k: int| 0 <= k < lv.len() implies exists|i2: int|
                0 <= i2 < rows@.len() && (#[trigger] rows@[i2])@.layer == (#[trigger] lv[k]).layer by {
                let j2 = choose|j2: int|
                    0 <= j2 < entries@.len() && (#[trigger] entries@[j2]).0@ == lv[k].layer;
                assert(rows@[j2]@.layer == lv[k].layer);
            }
            assert forall|k: int| 0 <= k < rv.len() implies exists|i2: int|
                0 <= i2 < rows@.len() && (#[trigger] rows@[i2])@.layer == (#[trigger] rv[k]).layer by {
                let j2 = choose|j2: int|
                    0 <= j2 < entries@.len() && (#[trigger] entries@[j2]).0@ == rv[k].layer;
                assert(rows@[j2]@.layer == rv[k].layer);
            }
        }
        rows
    }
}

} // verus!

