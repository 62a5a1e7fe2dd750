use vstd::prelude::*;
use crate::instance::{EC2Instance, InstanceView};
use crate::collection::EC2InstanceCollection;

verus! {

/// Whether `a` comes strictly before `b` in character order, a proper prefix first.
pub open spec fn text_before(a: Seq<char>, b: Seq<char>) -> bool
    decreases a.len(),
{
    if b.len() == 0 {
        false
    } else if a.len() == 0 {
        true
    } else if a[0] != b[0] {
        (a[0] as int) < (b[0] as int)
    } else {
        text_before(a.skip(1), b.skip(1))
    }
}

/// The picker's order: by shown name, then by shown health, then by id.
pub open spec fn record_before(x: InstanceView, y: InstanceView) -> bool {
    ||| text_before(x.shown_name(), y.shown_name())
    ||| x.shown_name() == y.shown_name() && text_before(x.shown_health(), y.shown_health())
    ||| x.shown_name() == y.shown_name() && x.shown_health() == y.shown_health() && text_before(
        x.id,
        y.id,
    )
}

/// No text comes both before and after another.
pub proof fn lemma_text_before_asymmetric(a: Seq<char>, b: Seq<char>)
    ensures
        !(text_before(a, b) && text_before(b, a)),
    decreases a.len(),
{
    if a.len() > 0 && b.len() > 0 && a[0] == b[0] {
        lemma_text_before_asymmetric(a.skip(1), b.skip(1));
    }
}

/// No record comes both before and after another in the picker's order.
pub proof fn lemma_record_before_asymmetric(x: InstanceView, y: InstanceView)
    ensures
        !(record_before(x, y) && record_before(y, x)),
{
    lemma_text_before_asymmetric(x.shown_name(), y.shown_name());
    lemma_text_before_asymmetric(x.shown_health(), y.shown_health());
    lemma_text_before_asymmetric(x.id, y.id);
    lemma_text_before_asymmetric(x.shown_name(), x.shown_name());
    lemma_text_before_asymmetric(x.shown_health(), x.shown_health());
}

proof fn lemma_text_before_transitive(a: Seq<char>, b: Seq<char>, c: Seq<char>)
    requires
        text_before(a, b),
        text_before(b, c),
    ensures
        text_before(a, c),
    decreases a.len(),
{
    if a.len() > 0 && a[0] == b[0] && b[0] == c[0] {
        lemma_text_before_transitive(a.skip(1), b.skip(1), c.skip(1));
    }
}

proof fn lemma_text_before_total(a: Seq<char>, b: Seq<char>)
    ensures
        a == b || text_before(a, b) || text_before(b, a),
    decreases a.len(),
{
    if a.len() > 0 && b.len() > 0 && a[0] == b[0] {
        lemma_text_before_total(a.skip(1), b.skip(1));
        if a.skip(1) == b.skip(1) {
            assert(a =~= seq![a[0]] + a.skip(1));
            assert(b =~= seq![b[0]] + b.skip(1));
        }
    } else if a.len() == 0 && b.len() == 0 {
        assert(a =~= b);
    } else if a.len() > 0 && b.len() > 0 {
        assert((a[0] as int) != (b[0] as int));
    }
}

proof fn lemma_text_facts(a: Seq<char>, b: Seq<char>, c: Seq<char>)
    ensures
        text_before(a, b) && text_before(b, c) ==> text_before(a, c),
        a == b || text_before(a, b) || text_before(b, a),
        b == c || text_before(b, c) || text_before(c, b),
        a == c || text_before(a, c) || text_before(c, a),
        !(text_before(a, b) && text_before(b, a)),
        !(text_before(b, c) && text_before(c, b)),
        !(text_before(a, c) && text_before(c, a)),
        !text_before(a, a),
        !text_before(b, b),
        !text_before(c, c),
{
    if text_before(a, b) && text_before(b, c) {
        lemma_text_before_transitive(a, b, c);
    }
    lemma_text_before_total(a, b);
    lemma_text_before_total(b, c);
    lemma_text_before_total(a, c);
    lemma_text_before_asymmetric(a, b);
    lemma_text_before_asymmetric(b, c);
    lemma_text_before_asymmetric(a, c);
    lemma_text_before_asymmetric(a, a);
    lemma_text_before_asymmetric(b, b);
    lemma_text_before_asymmetric(c, c);
}

/// Not coming after is transitive in the picker's order.
pub proof fn lemma_record_not_after_transitive(x: InstanceView, y: InstanceView, z: InstanceView)
    requires
        !record_before(y, x),
        !record_before(z, y),
    ensures
        !record_before(z, x),
{
    lemma_text_facts(x.shown_name(), y.shown_name(), z.shown_name());
    lemma_text_facts(z.shown_name(), y.shown_name(), x.shown_name());
    lemma_text_facts(x.shown_health(), y.shown_health(), z.shown_health());
    lemma_text_facts(z.shown_health(), y.shown_health(), x.shown_health());
    lemma_text_facts(x.id, y.id, z.id);
    lemma_text_facts(z.id, y.id, x.id);
}

/// A listing in which no record comes after the next one is sorted throughout: no
/// record is listed after any record that it comes before.
pub proof fn lemma_sorted_throughout(inst: Seq<InstanceView>, r: Seq<usize>)
    requires
        forall|k: int| 0 <= k < r.len() ==> #[trigger] r[k] < inst.len(),
        forall|k: int|
            0 <= k < r.len() - 1 ==> !record_before(
                inst[#[trigger] r[k + 1] as int],
                inst[r[k] as int],
            ),
    ensures
        forall|a: int, b: int|
            0 <= a < b < r.len() ==> !record_before(
                inst[#[trigger] r[b] as int],
                inst[#[trigger] r[a] as int],
            ),
{
    assert forall|a: int, b: int| 0 <= a < b < r.len() implies !record_before(
        inst[#[trigger] r[b] as int],
        inst[#[trigger] r[a] as int],
    ) by {
        lemma_sorted_from(inst, r, a, b);
    }
}

proof fn lemma_sorted_from(inst: Seq<InstanceView>, r: Seq<usize>, a: int, b: int)
    requires
        forall|k: int| 0 <= k < r.len() ==> #[trigger] r[k] < inst.len(),
        forall|k: int|
            0 <= k < r.len() - 1 ==> !record_before(
                inst[#[trigger] r[k + 1] as int],
                inst[r[k] as int],
            ),
        0 <= a < b < r.len(),
    ensures
        !record_before(inst[r[b] as int], inst[r[a] as int]),
    decreases b - a,
{
    let k = b - 1;
    assert(!record_before(inst[r[k + 1] as int], inst[r[k] as int]));
    if a < k {
        lemma_sorted_from(inst, r, a, k);
        lemma_record_not_after_transitive(inst[r[a] as int], inst[r[k] as int], inst[r[b] as int]);
    }
}

/// Character-order comparison of two strings.
pub fn text_lt(a: &str, b: &str) -> (r: bool)
    ensures
        r == text_before(a@, b@),
{
    let la = a.unicode_len();
    let lb = b.unicode_len();
    let mut i: usize = 0;
    proof {
        assert(a@.skip(0) =~= a@);
        assert(b@.skip(0) =~= b@);
    }
    while i < la && i < lb
        invariant
            i <= la,
            i <= lb,
            la == a@.len(),
            lb == b@.len(),
            text_before(a@, b@) == text_before(a@.skip(i as int), b@.skip(i as int)),
        decreases la - i,
    {
        let c = a.get_char(i);
        let d = b.get_char(i);
        assert(a@.skip(i as int)[0] == c);
        assert(b@.skip(i as int)[0] == d);
        if c != d {
            return (c as u32) < (d as u32);
        }
        assert(a@.skip(i as int).skip(1) =~= a@.skip(i + 1));
        assert(b@.skip(i as int).skip(1) =~= b@.skip(i + 1));
        i = i + 1;
    }
    i < lb
}

/// Whether `x` comes strictly before `y` in the picker's order.
pub fn comes_before(x: &EC2Instance, y: &EC2Instance) -> (r: bool)
    ensures
        r == record_before(x@, y@),
{
    let xn = x.get_name();
    let yn = y.get_name();
    if text_lt(xn.as_str(), yn.as_str()) {
        return true;
    }
    if xn != yn {
        return false;
    }
    let xh = x.get_health();
    let yh = y.get_health();
    if text_lt(xh.as_str(), yh.as_str()) {
        return true;
    }
    if xh != yh {
        return false;
    }
    text_lt(x.id.as_str(), y.id.as_str())
}

/// The positions of the collection's records in the order the picker lists them: each
/// position once, no record listed after one that it comes before, and records that
/// tie kept in discovery order.
pub fn picker_order(c: &EC2InstanceCollection) -> (r: Vec<usize>)
    ensures
        r@.len() == c@.instances.len(),
        r@.no_duplicates(),
        forall|k: int| 0 <= k < r@.len() ==> #[trigger] r@[k] < c@.instances.len(),
        forall|a: int, b: int|
            0 <= a < b < r@.len() ==> !record_before(
                c@.instances[#[trigger] r@[b] as int],
                c@.instances[#[trigger] r@[a] as int],
            ),
        forall|k: int|
            0 <= k < r@.len() - 1 && !record_before(
                c@.instances[r@[k] as int],
                c@.instances[#[trigger] r@[k + 1] as int],
            ) ==> r@[k] < r@[k + 1],
{
    let n = c.len();
    let ghost inst = c@.instances;
    let mut order: Vec<usize> = Vec::new();
    let mut i: usize = 0;
    while i < n
        invariant
            i <= n,
            n == inst.len(),
            inst == c@.instances,
            order@.len() == i,
            order@.no_duplicates(),
            forall|k: int| 0 <= k < order@.len() ==> #[trigger] order@[k] < i,
            forall|k: int|
                0 <= k < order@.len() - 1 ==> !record_before(
                    inst[#[trigger] order@[k + 1] as int],
                    inst[order@[k] as int],
                ),
            forall|k: int|
                0 <= k < order@.len() - 1 && !record_before(
                    inst[order@[k] as int],
                    inst[#[trigger] order@[k + 1] as int],
                ) ==> order@[k] < order@[k + 1],
        decreases n - i,
    {
        let item = c.get(i);
        let mut p: usize = order.len();
        while p > 0
            invariant
                p <= order@.len(),
                order@.len() == i,
                i < n,
                n == inst.len(),
                inst == c@.instances,
                item@ == inst[i as int],
                forall|k: int| 0 <= k < order@.len() ==> #[trigger] order@[k] < i,
                forall|q: int|
                    p <= q < order@.len() ==> record_before(
                        inst[i as int],
                        inst[#[trigger] order@[q] as int],
                    ),
            ensures
                p <= order@.len(),
                forall|q: int|
                    p <= q < order@.len() ==> record_before(
                        inst[i as int],
                        inst[#[trigger] order@[q] as int],
                    ),
                p == 0 || !record_before(inst[i as int], inst[order@[p - 1] as int]),
            decreases p,
        {
            if !comes_before(item, c.get(order[p - 1])) {
                break;
            }
            p = p - 1;
        }
        let ghost old_order = order@;
        proof {
            if p > 0 {
                assert(order@[p - 1] < i);
            }
        }
        order.insert(p, i);
        proof {
            old_order.insert_ensures(p as int, i);
            let o = order@;
            assert forall|k: int| 0 <= k < o.len() implies #[trigger] o[k] < i + 1 by {
                if k < p {
                } else if k > p {
                    assert(o[k] == old_order[k - 1]);
                }
            }
            assert forall|a: int, b: int| 0 <= a < o.len() && 0 <= b < o.len() && a != b implies o[a] != o[b] by {
                if a != p && b != p {
                    let a0 = if a < p { a } else { a - 1 };
                    let b0 = if b < p { b } else { b - 1 };
                    if a >= p {
                        assert(o[a] == old_order[a - 1]);
                    }
                    if b >= p {
                        assert(o[b] == old_order[b - 1]);
                    }
                    assert(o[a] == old_order[a0]);
                    assert(o[b] == old_order[b0]);
                } else if a == p {
                    let b0 = if b < p { b } else { b - 1 };
                    if b > p {
                        assert(o[b] == old_order[b - 1]);
                    }
                    assert(old_order[b0] < i);
                } else {
                    let a0 = if a < p { a } else { a - 1 };
                    if a > p {
                        assert(o[a] == old_order[a - 1]);
                    }
                    assert(old_order[a0] < i);
                }
            }
            assert forall|k: int|
                0 <= k < o.len() - 1 && !record_before(
                    inst[o[k] as int],
                    inst[#[trigger] o[k + 1] as int],
                ) implies o[k] < o[k + 1] by {
                if k + 1 < p {
                    assert(o[k] == old_order[k]);
                    assert(o[k + 1] == old_order[k + 1]);
                } else if k + 1 == p {
                    assert(o[k] == old_order[p - 1]);
                } else if k == p {
                    assert(o[k + 1] == old_order[p as int]);
                    assert(record_before(inst[i as int], inst[old_order[p as int] as int]));
                } else {
                    assert(o[k] == old_order[k - 1]);
                    assert(o[k + 1] == old_order[k]);
                }
            }
            assert forall|k: int| 0 <= k < o.len() - 1 implies !record_before(
                inst[#[trigger] o[k + 1] as int],
                inst[o[k] as int],
            ) by {
                if k + 1 < p {
                    assert(!record_before(inst[old_order[k + 1] as int], inst[old_order[k] as int]));
                } else if k + 1 == p {
                    assert(o[k] == old_order[p - 1]);
                } else if k == p {
                    assert(o[k + 1] == old_order[p as int]);
                    assert(record_before(inst[i as int], inst[old_order[p as int] as int]));
                    lemma_record_before_asymmetric(inst[i as int], inst[old_order[p as int] as int]);
                } else {
                    assert(o[k] == old_order[k - 1]);
                    assert(o[k + 1] == old_order[k]);
                    assert(!record_before(inst[old_order[k] as int], inst[old_order[k - 1] as int]));
                }
            }
        }
        i = i + 1;
    }
    proof {
        lemma_sorted_throughout(inst, order@);
    }
    order
}

} // verus!
