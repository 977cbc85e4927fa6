//! Fuel accounting: the fuel a module of a given mass needs, the fuel that
//! fuel itself needs, and the totals over a list of modules.

use vstd::prelude::*;

verus! {

/// Fuel for one mass: a third of the mass, rounded toward zero, minus two.
pub open spec fn spec_fuel(mass: int) -> int {
    if mass >= 0 {
        mass / 3 - 2
    } else {
        -((-mass) / 3) - 2
    }
}

/// Fuel for one mass counting the fuel that the fuel itself needs, summed
/// until a step would need none.
pub open spec fn spec_total_fuel(mass: int) -> int
    decreases (if mass >= 0 { mass } else { 0 }),
{
    let r = spec_fuel(mass);
    if r < 0 {
        0
    } else {
        r + spec_total_fuel(r)
    }
}

/// The plain fuel total of a list of masses, summed left to right.
pub open spec fn spec_fuel_sum(ms: Seq<i32>) -> int
    decreases ms.len(),
{
    if ms.len() == 0 {
        0
    } else {
        spec_fuel_sum(ms.drop_last()) + spec_fuel(ms.last() as int)
    }
}

/// The recursive fuel total of a list of masses, summed left to right.
pub open spec fn spec_total_fuel_sum(ms: Seq<i32>) -> int
    decreases ms.len(),
{
    if ms.len() == 0 {
        0
    } else {
        spec_total_fuel_sum(ms.drop_last()) + spec_total_fuel(ms.last() as int)
    }
}

/// The total fuel of a non-negative mass is non-negative and no more than
/// the mass itself.
pub proof fn lemma_total_fuel_bounds(mass: int)
    ensures
        0 <= spec_total_fuel(mass),
        mass >= 0 ==> spec_total_fuel(mass) <= mass,
    decreases (if mass >= 0 { mass } else { 0 }),
{
    let r = spec_fuel(mass);
    if r >= 0 {
        lemma_total_fuel_bounds(r);
    }
}

/// Returns the fuel required for a certain mass, using the relation
/// `fuel = mass / 3 - 2` with division rounded toward zero.
pub fn compute_fuel_from_mass(mass: i32) -> (r: i32)
    ensures
        r == spec_fuel(mass as int),
{
    let third: i32 = if mass >= 0 {
        ((mass as u32) / 3) as i32
    } else {
        let a = (-(mass as i64)) as u64;
        -(((a / 3) as i64) as i32)
    };
    third - 2
}

/// Computes recursively the amount of fuel needed to launch a module,
/// taking into account the fuel needed to launch the fuel itself.
pub fn recursive_compute_fuel_amount(mass: i32) -> (r: i32)
    ensures
        r == spec_total_fuel(mass as int),
    decreases (if mass >= 0 { mass as int } else { 0 }),
{
    proof {
        lemma_total_fuel_bounds(mass as int);
    }
    let result = compute_fuel_from_mass(mass);
    if result < 0 {
        return 0;
    }
    proof {
        lemma_total_fuel_bounds(result as int);
    }
    let fuel = recursive_compute_fuel_amount(result);
    result + fuel
}

/// The plain fuel total of all modules.  The caller owes that every
/// partial sum stays inside the 32-bit range, as the accumulator does.
pub fn part_1(modules: Vec<i32>) -> (r: i32)
    requires
        forall|i: int|
            0 <= i <= modules@.len() ==> i32::MIN <= #[trigger] spec_fuel_sum(modules@.take(i))
                <= i32::MAX,
    ensures
        r == spec_fuel_sum(modules@),
{
    let mut sum: i32 = 0;
    let mut i: usize = 0;
    while i < modules.len()
        invariant
            i <= modules@.len(),
            sum == spec_fuel_sum(modules@.take(i as int)),
            forall|j: int|
                0 <= j <= modules@.len() ==> i32::MIN <= #[trigger] spec_fuel_sum(
                    modules@.take(j),
                ) <= i32::MAX,
        decreases modules@.len() - i,
    {
        let f = compute_fuel_from_mass(modules[i]);
        proof {
            assert(modules@.take(i + 1).drop_last() == modules@.take(i as int));
            assert(modules@.take(i + 1).last() == modules@[i as int]);
            assert(spec_fuel_sum(modules@.take(i + 1)) == sum + f);
        }
        sum = match sum.checked_add(f) {
            Some(s) => s,
            None => unreached(),
        };
        i = i + 1;
    }
    proof {
        assert(modules@.take(modules@.len() as int) == modules@);
    }
    sum
}

/// The recursive fuel total of all modules, under the same partial-sum
/// bound.
pub fn part_2(modules: Vec<i32>) -> (r: i32)
    requires
        forall|i: int|
            0 <= i <= modules@.len() ==> i32::MIN <= #[trigger] spec_total_fuel_sum(
                modules@.take(i),
            ) <= i32::MAX,
    ensures
        r == spec_total_fuel_sum(modules@),
{
    let mut sum: i32 = 0;
    let mut i: usize = 0;
    while i < modules.len()
        invariant
            i <= modules@.len(),
            sum == spec_total_fuel_sum(modules@.take(i as int)),
            forall|j: int|
                0 <= j <= modules@.len() ==> i32::MIN <= #[trigger] spec_total_fuel_sum(
                    modules@.take(j),
                ) <= i32::MAX,
        decreases modules@.len() - i,
    {
        let f = recursive_compute_fuel_amount(modules[i]);
        proof {
            assert(modules@.take(i + 1).drop_last() == modules@.take(i as int));
            assert(modules@.take(i + 1).last() == modules@[i as int]);
            assert(spec_total_fuel_sum(modules@.take(i + 1)) == sum + f);
        }
        sum = match sum.checked_add(f) {
            Some(s) => s,
            None => unreached(),
        };
        i = i + 1;
    }
    proof {
        assert(modules@.take(modules@.len() as int) == modules@);
    }
    sum
}

} // verus!
