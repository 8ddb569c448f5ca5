//! Bringing a file from its old bytes to its new ones unit by unit: only
//! the units (pages) whose bytes change are written, so appending a record
//! rewrites the pages it touches and no others, and a log that only grew
//! gets its tail unit and what follows it.
use vstd::prelude::*;

verus! {

/// The start of the unit that position `i` lies in.
pub open spec fn unit_start(i: int, unit: int) -> int {
    i - i % unit
}

/// Whether byte `i` of `after` is already in place in `before`.
pub open spec fn in_place(before: Seq<u8>, after: Seq<u8>, i: int) -> bool {
    i < before.len() && before[i] == after[i]
}

/// Whether some byte of the unit starting at `o` differs.
pub open spec fn unit_changed(before: Seq<u8>, after: Seq<u8>, o: int, unit: int) -> bool {
    exists|i: int| o <= i < o + unit && i < after.len() && !in_place(before, after, i)
}

/// An aligned offset in the unit that starts at `m * unit` is its start.
proof fn lemma_aligned_in_unit(p: int, m: int, unit: int)
    requires
        unit > 0,
        p >= 0,
        p % unit == 0,
        m * unit <= p < m * unit + unit,
    ensures
        p == m * unit,
{
    vstd::arithmetic::div_mod::lemma_fundamental_div_mod(p, unit);
    let q = p / unit;
    assert(p == m * unit) by (nonlinear_arith)
        requires
            p == unit * q,
            m * unit <= p < m * unit + unit,
            unit > 0,
    ;
}

/// The unit a position lies in starts at an aligned offset at or before
/// it, less than a unit before it.
proof fn lemma_unit_start(i: int, unit: int)
    requires
        unit > 0,
        i >= 0,
    ensures
        unit_start(i, unit) % unit == 0,
        0 <= unit_start(i, unit) <= i < unit_start(i, unit) + unit,
{
    vstd::arithmetic::div_mod::lemma_fundamental_div_mod(i, unit);
    let q = i / unit;
    let r = i % unit;
    vstd::arithmetic::div_mod::lemma_mod_multiples_basic(q, unit);
    assert(unit_start(i, unit) == q * unit) by (nonlinear_arith)
        requires
            i == unit * q + r,
            unit_start(i, unit) == i - r,
    ;
    assert(q >= 0) by (nonlinear_arith)
        requires
            i == unit * q + r,
            0 <= r < unit,
            i >= 0,
    ;
    assert(q * unit >= 0) by (nonlinear_arith)
        requires
            q >= 0,
            unit > 0,
    ;
}

/// The start of every unit of `after` whose bytes differ from those of
/// `before` there, in ascending order. Cutting or growing the file to the
/// length of `after` and writing those units of `after` at their offsets
/// leaves the file holding `after`.
pub fn changed_units(before: &[u8], after: &[u8], unit: usize) -> (offs: Vec<usize>)
    requires
        unit > 0,
        after@.len() + unit <= usize::MAX,
    ensures
        forall|k: int| 0 <= k < offs@.len() ==> (#[trigger] offs@[k]) % unit == 0 && offs@[k] < after@.len()
            && unit_changed(before@, after@, offs@[k] as int, unit as int),
        forall|k: int, j: int| 0 <= k < j < offs@.len() ==> offs@[k] < offs@[j],
        forall|o: int|
            0 <= o < after@.len() && o % (unit as int) == 0 ==> (offs@.contains(o as usize) <==> unit_changed(
                before@,
                after@,
                o,
                unit as int,
            )),
        forall|i: int|
            0 <= i < after@.len() && !in_place(before@, after@, i) ==> offs@.contains(
                unit_start(i, unit as int) as usize,
            ),
{
    let n = after.len();
    let mut offs: Vec<usize> = Vec::new();
    let mut o: usize = 0;
    let ghost mut m: int = 0;
    while o < n
        invariant
            n == after@.len(),
            n + unit <= usize::MAX,
            unit > 0,
            o == m * unit,
            m >= 0,
            o <= n + unit,
            forall|k: int| 0 <= k < offs@.len() ==> (#[trigger] offs@[k]) % unit == 0 && offs@[k] < o && offs@[k] < n
                && unit_changed(before@, after@, offs@[k] as int, unit as int),
            forall|k: int, j: int| 0 <= k < j < offs@.len() ==> offs@[k] < offs@[j],
            forall|p: int|
                0 <= p < o && p < n && p % (unit as int) == 0 ==> (offs@.contains(p as usize) <==> unit_changed(
                    before@,
                    after@,
                    p,
                    unit as int,
                )),
        decreases n + unit - o,
    {
        let end = if o + unit < n {
            o + unit
        } else {
            n
        };
        let mut j: usize = o;
        let mut differs = false;
        while j < end
            invariant
                o <= j <= end,
                end <= n,
                n == after@.len(),
                differs ==> exists|i: int| o <= i < j && !in_place(before@, after@, i),
                !differs ==> forall|i: int| o <= i < j ==> in_place(before@, after@, i),
            decreases end - j,
        {
            if j >= before.len() || before[j] != after[j] {
                assert(!in_place(before@, after@, j as int));
                differs = true;
            }
            j = j + 1;
        }
        assert(differs == unit_changed(before@, after@, o as int, unit as int));
        proof {
            vstd::arithmetic::div_mod::lemma_mod_multiples_basic(m, unit as int);
        }
        let ghost old_offs = offs@;
        if differs {
            offs.push(o);
        }
        proof {
            assert forall|p: int|
                0 <= p < o + unit && p < n && p % (unit as int) == 0 implies (offs@.contains(p as usize) <==> unit_changed(
                before@,
                after@,
                p,
                unit as int,
            )) by {
                if p < o {
                    if old_offs.contains(p as usize) {
                        let k = choose|k: int| 0 <= k < old_offs.len() && old_offs[k] == p as usize;
                        assert(offs@[k] == p as usize);
                    }
                    if offs@.contains(p as usize) {
                        let k = choose|k: int| 0 <= k < offs@.len() && offs@[k] == p as usize;
                        if k < old_offs.len() {
                            assert(old_offs[k] == p as usize);
                        }
                    }
                } else {
                    lemma_aligned_in_unit(p, m, unit as int);
                    if differs {
                        assert(offs@[offs@.len() - 1] == p as usize);
                    } else {
                        assert(offs@ == old_offs);
                        if offs@.contains(p as usize) {
                            let k = choose|k: int| 0 <= k < offs@.len() && offs@[k] == p as usize;
                        }
                    }
                }
            }
        }
        o = o + unit;
        proof {
            m = m + 1;
            assert(o == m * unit) by (nonlinear_arith)
                requires
                    o == (m - 1) * unit + unit,
            ;
        }
    }
    proof {
        assert forall|i: int| 0 <= i < n && !in_place(before@, after@, i) implies offs@.contains(
            unit_start(i, unit as int) as usize,
        ) by {
            lemma_unit_start(i, unit as int);
            let p = unit_start(i, unit as int);
            assert(unit_changed(before@, after@, p, unit as int));
        }
    }
    offs
}

} // verus!
