//! Choosing among numbered things without disturbing their order.
use vstd::prelude::*;

verus! {

/// Those of the numbers below `count` that satisfy `wanted`, in ascending order.
pub open spec fn selected(wanted: spec_fn(int) -> bool, count: int) -> Seq<int>
    decreases count,
{
    if count <= 0 {
        Seq::empty()
    } else if wanted(count - 1) {
        selected(wanted, count - 1).push(count - 1)
    } else {
        selected(wanted, count - 1)
    }
}

/// A selection holds exactly the wanted numbers, each once and in ascending order.
pub proof fn law_selection_exact(wanted: spec_fn(int) -> bool, count: int)
    requires
        count >= 0,
    ensures
        forall|i: int|
            0 <= i < count ==> (#[trigger] wanted(i) <==> selected(wanted, count).contains(i)),
        forall|c: int|
            0 <= c < selected(wanted, count).len() ==> 0 <= #[trigger] selected(wanted, count)[c]
                < count && wanted(selected(wanted, count)[c]),
        forall|c: int, d: int|
            0 <= c < d < selected(wanted, count).len() ==> #[trigger] selected(wanted, count)[c]
                < #[trigger] selected(wanted, count)[d],
        selected(wanted, count).len() <= count,
    decreases count,
{
    if count > 0 {
        law_selection_exact(wanted, count - 1);
        let before = selected(wanted, count - 1);
        let after = selected(wanted, count);
        assert forall|i: int| 0 <= i < count implies (#[trigger] wanted(i) <==> after.contains(
            i,
        )) by {
            if wanted(count - 1) {
                assert(after[before.len() as int] == count - 1);
                if i < count - 1 {
                    if before.contains(i) {
                        let c = choose|c: int| 0 <= c < before.len() && before[c] == i;
                        assert(after[c] == i);
                    }
                    if after.contains(i) {
                        let c = choose|c: int| 0 <= c < after.len() && after[c] == i;
                        assert(before[c] == i);
                    }
                }
            } else if i == count - 1 {
                if before.contains(i) {
                    let c = choose|c: int| 0 <= c < before.len() && before[c] == i;
                    assert(before[c] < count - 1);
                }
            }
        }
    }
}

/// Selections by conditions that agree below `count` are the same.
pub proof fn lemma_selection_agrees(
    one: spec_fn(int) -> bool,
    other: spec_fn(int) -> bool,
    count: int,
)
    requires
        forall|i: int| 0 <= i < count ==> #[trigger] one(i) == other(i),
    ensures
        selected(one, count) == selected(other, count),
    decreases count,
{
    if count > 0 {
        lemma_selection_agrees(one, other, count - 1);
        assert(one(count - 1) == other(count - 1));
    }
}

/// Selecting the numbers of good things is filtering the things.
pub proof fn lemma_selection_filters<T>(things: Seq<T>, good: spec_fn(T) -> bool)
    ensures
        selected(|i: int| good(things[i]), things.len() as int).map_values(|i: int| things[i])
            == things.filter(good),
    decreases things.len(),
{
    reveal(Seq::filter);
    let n = things.len() as int;
    let wanted = |i: int| good(things[i]);
    if n == 0 {
        assert(selected(wanted, n).map_values(|i: int| things[i]) =~= things.filter(good));
    } else {
        let before = things.drop_last();
        lemma_selection_filters(before, good);
        let wanted_before = |i: int| good(before[i]);
        lemma_selection_agrees(wanted_before, wanted, n - 1);
        law_selection_exact(wanted, n - 1);
        assert(wanted(n - 1) == good(things.last()));
        assert(selected(wanted, n - 1).map_values(|i: int| things[i]) =~= before.filter(good));
        assert(selected(wanted, n).map_values(|i: int| things[i]) =~= things.filter(good));
    }
}

/// Whether numbers name different places of something `len` long.
pub open spec fn names_places(places: Seq<usize>, len: int) -> bool {
    &&& forall|i: int| 0 <= i < places.len() ==> #[trigger] places[i] < len
    &&& places.no_duplicates()
}

/// Takes the items at the given places, in the order given, and drops the rest.
pub fn pick<T>(items: Vec<T>, places: &Vec<usize>) -> (picked: Vec<T>)
    requires
        names_places(places@, items@.len() as int),
    ensures
        picked@ == places@.map_values(|place: usize| items@[place as int]),
{
    let ghost whole = items@;
    let mut slots: Vec<Option<T>> = Vec::new();
    let mut rest = items;
    let count = rest.len();
    while rest.len() > 0
        invariant
            count == whole.len(),
            rest@.len() + slots@.len() == count,
            rest@ == whole.take(rest@.len() as int),
            forall|i: int|
                0 <= i < slots@.len() ==> #[trigger] slots@[i] == Some(whole[count - 1 - i]),
        decreases rest@.len(),
    {
        let ghost before = rest@;
        let item = rest.pop();
        assert(rest@ =~= whole.take(rest@.len() as int));
        slots.push(item);
    }
    let mut picked: Vec<T> = Vec::new();
    let mut k: usize = 0;
    while k < places.len()
        invariant
            0 <= k <= places@.len(),
            count == whole.len(),
            slots@.len() == count,
            names_places(places@, count as int),
            picked@.len() == k,
            forall|j: int| 0 <= j < k ==> #[trigger] picked@[j] == whole[places@[j] as int],
            forall|i: int|
                0 <= i < count && (forall|j: int| 0 <= j < k ==> #[trigger] places@[j] != i)
                    ==> #[trigger] slots@[count - 1 - i] == Some(whole[i]),
        decreases places@.len() - k,
    {
        let place = places[k];
        let ghost before = slots@;
        assert(slots@[count - 1 - place] == Some(whole[place as int]));
        let item = slots[count - 1 - place].take();
        assert forall|i: int|
            0 <= i < count && (forall|j: int|
                0 <= j < k + 1 ==> #[trigger] places@[j] != i) implies #[trigger] slots@[count - 1
            - i] == Some(whole[i]) by {
            assert(places@[k as int] != i);
            assert(before[count - 1 - i] == Some(whole[i]));
        }
        picked.push(item.unwrap());
        k += 1;
    }
    assert(picked@ =~= places@.map_values(|place: usize| whole[place as int]));
    picked
}

} // verus!
