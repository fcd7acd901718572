//! List caps, source-list selection and warning text for the live backend.

use vstd::prelude::*;
use crate::response::common::ListSummary;
use crate::text::{decimal, extend_chars, extend_str, from_chars, join, push_decimal};

verus! {

/// `value` clamped to `1..=max`.
pub open spec fn capped(value: usize, max: usize) -> usize {
    if value < 1 {
        1
    } else if value > max {
        max
    } else {
        value
    }
}

/// Clamps a requested count to `1..=max` (`usize::clamp`, which requires
/// `max >= 1`).
pub fn cap_usize(value: usize, max: usize) -> (r: usize)
    requires
        max >= 1,
    ensures
        r == capped(value, max),
{
    if value < 1 {
        1
    } else if value > max {
        max
    } else {
        value
    }
}

/// The warning recorded when a list readback is cut to `max_lists`.
pub open spec fn cap_warning(original_count: nat, max_lists: nat, label: Seq<char>) -> Seq<char> {
    "XML list readback returned "@ + decimal(original_count) + " lists; "@ + label
        + " applied max_lists cap "@ + decimal(max_lists)
}

/// The evidence note recorded when a list readback is cut to `max_lists`.
pub open spec fn cap_note(original_count: nat, max_lists: nat, label: Seq<char>) -> Seq<char> {
    label + " XML results truncated from "@ + decimal(original_count) + " lists to applied cap "@
        + decimal(max_lists)
}

/// Cuts `lists` to its first `max_lists` entries, recording a warning and an
/// evidence note when anything was cut.
pub fn apply_list_result_cap(
    lists: &mut Vec<ListSummary>,
    max_lists: usize,
    label: &str,
    warnings: &mut Vec<String>,
    notes: &mut Vec<String>,
)
    ensures
        old(lists)@.len() <= max_lists ==> {
            &&& final(lists)@ == old(lists)@
            &&& final(warnings)@ == old(warnings)@
            &&& final(notes)@ == old(notes)@
        },
        old(lists)@.len() > max_lists ==> {
            &&& final(lists)@ == old(lists)@.take(max_lists as int)
            &&& final(warnings).deep_view() == old(warnings).deep_view().push(
                cap_warning(old(lists)@.len(), max_lists as nat, label@),
            )
            &&& final(notes).deep_view() == old(notes).deep_view().push(
                cap_note(old(lists)@.len(), max_lists as nat, label@),
            )
        },
{
    let original_count = lists.len();
    if original_count <= max_lists {
        return;
    }
    lists.truncate(max_lists);
    let mut warning: Vec<char> = Vec::new();
    extend_str(&mut warning, "XML list readback returned ");
    push_decimal(&mut warning, original_count as u64);
    extend_str(&mut warning, " lists; ");
    extend_str(&mut warning, label);
    extend_str(&mut warning, " applied max_lists cap ");
    push_decimal(&mut warning, max_lists as u64);
    let mut note: Vec<char> = Vec::new();
    extend_str(&mut note, label);
    extend_str(&mut note, " XML results truncated from ");
    push_decimal(&mut note, original_count as u64);
    extend_str(&mut note, " lists to applied cap ");
    push_decimal(&mut note, max_lists as u64);
    let ghost old_warnings = warnings.deep_view();
    let ghost old_notes = notes.deep_view();
    let w = from_chars(warning.as_slice());
    let n = from_chars(note.as_slice());
    warnings.push(w);
    notes.push(n);
    assert(warnings.deep_view() =~= old_warnings.push(
        cap_warning(original_count as nat, max_lists as nat, label@),
    ));
    assert(notes.deep_view() =~= old_notes.push(
        cap_note(original_count as nat, max_lists as nat, label@),
    ));
}

/// The requested list ids, in request order, without zeros and repeats.
pub open spec fn requested_ids(ids: Seq<u64>) -> Seq<u64>
    decreases ids.len(),
{
    if ids.len() == 0 {
        seq![]
    } else {
        let r = requested_ids(ids.drop_last());
        let x = ids.last();
        if x > 0 && !r.contains(x) {
            r.push(x)
        } else {
            r
        }
    }
}

/// The first list with id `id`.
pub open spec fn first_with_id(lists: Seq<ListSummary>, id: u64) -> Option<ListSummary>
    decreases lists.len(),
{
    if lists.len() == 0 {
        None
    } else if lists[0].list_id == id {
        Some(lists[0])
    } else {
        first_with_id(lists.drop_first(), id)
    }
}

/// For each id in turn, the first list with that id, when there is one.
pub open spec fn pick_lists(lists: Seq<ListSummary>, ids: Seq<u64>) -> Seq<ListSummary>
    decreases ids.len(),
{
    if ids.len() == 0 {
        seq![]
    } else {
        let r = pick_lists(lists, ids.drop_last());
        match first_with_id(lists, ids.last()) {
            Some(l) => r.push(l),
            None => r,
        }
    }
}

/// The lists selected by a request for `ids`.
pub open spec fn selected_lists(lists: Seq<ListSummary>, ids: Seq<u64>) -> Seq<ListSummary> {
    pick_lists(lists, requested_ids(ids))
}

proof fn lemma_first_with_id_matches(s: Seq<ListSummary>, id: u64)
    ensures
        first_with_id(s, id) matches Some(l) ==> l.list_id == id,
    decreases s.len(),
{
    if s.len() > 0 && s[0].list_id != id {
        lemma_first_with_id_matches(s.drop_first(), id);
    }
}

proof fn lemma_first_with_id_remove(s: Seq<ListSummary>, k: int, y: u64)
    requires
        0 <= k < s.len(),
        s[k].list_id != y,
    ensures
        first_with_id(s.remove(k), y) == first_with_id(s, y),
    decreases s.len(),
{
    if k == 0 {
        assert(s.remove(0) == s.drop_first());
    } else {
        assert(s.remove(k)[0] == s[0]);
        if s[0].list_id != y {
            assert(s.remove(k).drop_first() == s.drop_first().remove(k - 1));
            lemma_first_with_id_remove(s.drop_first(), k - 1, y);
        }
    }
}

/// The position of the first list with id `id`.
fn position_of_id(lists: &Vec<ListSummary>, id: u64) -> (r: Option<usize>)
    ensures
        r matches Some(k) ==> (k < lists@.len() && first_with_id(lists@, id) == Some(
            lists@[k as int],
        )),
        r is None ==> first_with_id(lists@, id) is None,
{
    let n = lists.len();
    assert(lists@.skip(0) == lists@);
    for i in 0..n
        invariant
            n == lists@.len(),
            first_with_id(lists@, id) == first_with_id(lists@.skip(i as int), id),
    {
        assert(lists@.skip(i as int)[0] == lists@[i as int]);
        assert(lists@.skip(i as int).drop_first() == lists@.skip(i + 1));
        if lists[i].list_id == id {
            return Some(i);
        }
    }
    None
}

fn contains_id(ids: &Vec<u64>, id: u64) -> (b: bool)
    ensures
        b == ids@.contains(id),
{
    let n = ids.len();
    for i in 0..n
        invariant
            n == ids@.len(),
            forall|k: int| 0 <= k < i ==> ids@[k] != id,
    {
        if ids[i] == id {
            return true;
        }
    }
    false
}

/// Keeps the lists whose ids were requested, in request order, ignoring
/// zero ids and repeated ids.
pub fn filter_requested_source_lists(lists: Vec<ListSummary>, requested_source_list_ids: &[u64]) -> (r: Vec<
    ListSummary,
>)
    ensures
        r@ == selected_lists(lists@, requested_source_list_ids@),
{
    let ghost original = lists@;
    let ids = requested_source_list_ids;
    let mut selected: Vec<ListSummary> = Vec::new();
    let mut remaining = lists;
    let mut seen: Vec<u64> = Vec::new();
    let n = ids.len();
    assert(ids@.take(0) == Seq::<u64>::empty());
    for i in 0..n
        invariant
            n == ids@.len(),
            seen@ == requested_ids(ids@.take(i as int)),
            selected@ == pick_lists(original, seen@),
            forall|y: u64|
                !seen@.contains(y) ==> #[trigger] first_with_id(remaining@, y) == first_with_id(
                    original,
                    y,
                ),
    {
        let x = ids[i];
        assert(ids@.take(i + 1).drop_last() == ids@.take(i as int));
        assert(ids@.take(i + 1).last() == x);
        if x > 0 && !contains_id(&seen, x) {
            let ghost old_seen = seen@;
            seen.push(x);
            match position_of_id(&remaining, x) {
                Some(index) => {
                    let ghost before = remaining@;
                    proof {
                        lemma_first_with_id_matches(before, x);
                    }
                    let item = remaining.remove(index);
                    selected.push(item);
                    assert forall|y: u64| !seen@.contains(y) implies #[trigger] first_with_id(
                        remaining@,
                        y,
                    ) == first_with_id(original, y) by {
                        broadcast use vstd::seq_lib::group_seq_properties;
                        assert(old_seen.push(x).contains(y) == (old_seen.contains(y) || y == x));
                        assert(!old_seen.contains(y) && y != x);
                        lemma_first_with_id_remove(before, index as int, y);
                    }
                },
                None => {
                    assert forall|y: u64| !seen@.contains(y) implies #[trigger] first_with_id(
                        remaining@,
                        y,
                    ) == first_with_id(original, y) by {
                        broadcast use vstd::seq_lib::group_seq_properties;
                        assert(old_seen.push(x).contains(y) == (old_seen.contains(y) || y == x));
                    }
                },
            }
            assert(seen@ == old_seen.push(x));
            assert(seen@.drop_last() == old_seen);
        }
    }
    assert(ids@.take(n as int) == ids@);
    selected
}

/// The ids in a warning: decimal, separated by `, `.
pub open spec fn ids_text(values: Seq<u64>) -> Seq<char> {
    join(values.map_values(|v: u64| decimal(v as nat)), ", "@)
}

/// Renders ids for a warning, such as `72, 114`.
pub fn join_ids_for_warning(values: &[u64]) -> (r: String)
    ensures
        r@ == ids_text(values@),
{
    let mut out: Vec<char> = Vec::new();
    let n = values.len();
    let ghost parts = values@.map_values(|v: u64| decimal(v as nat));
    assert(parts.take(0) =~= Seq::<Seq<char>>::empty());
    for i in 0..n
        invariant
            n == values@.len(),
            parts == values@.map_values(|v: u64| decimal(v as nat)),
            out@ == join(parts.take(i as int), ", "@),
    {
        assert(parts.take(i + 1).drop_last() == parts.take(i as int));
        assert(parts.take(i + 1).last() == decimal(values@[i as int] as nat));
        if i > 0 {
            extend_str(&mut out, ", ");
        }
        push_decimal(&mut out, values[i]);
    }
    assert(parts.take(n as int) == parts);
    from_chars(out.as_slice())
}

proof fn lemma_requested_ids(ids: Seq<u64>)
    ensures
        forall|i: int|
            0 <= i < requested_ids(ids).len() ==> #[trigger] requested_ids(ids)[i] > 0
                && ids.contains(requested_ids(ids)[i]),
        forall|i: int, j: int|
            0 <= i < j < requested_ids(ids).len() ==> #[trigger] requested_ids(ids)[i]
                != #[trigger] requested_ids(ids)[j],
    decreases ids.len(),
{
    if ids.len() > 0 {
        let prefix = ids.drop_last();
        lemma_requested_ids(prefix);
        let r = requested_ids(prefix);
        let x = ids.last();
        assert forall|k: int| 0 <= k < r.len() implies ids.contains(#[trigger] r[k]) by {
            let m = choose|m: int| 0 <= m < prefix.len() && prefix[m] == r[k];
            assert(ids[m] == r[k]);
        }
        if x > 0 && !r.contains(x) {
            let q = r.push(x);
            assert(ids[ids.len() - 1] == x);
            assert forall|i: int, j: int| 0 <= i < j < q.len() implies #[trigger] q[i]
                != #[trigger] q[j] by {
                if j == q.len() - 1 {
                    assert(q[i] == r[i]);
                    if q[i] == x {
                        assert(r.contains(x));
                    }
                }
            }
        }
    }
}

proof fn lemma_first_with_id_in(lists: Seq<ListSummary>, id: u64)
    ensures
        first_with_id(lists, id) matches Some(l) ==> (l.list_id == id && lists.contains(l)),
    decreases lists.len(),
{
    if lists.len() > 0 && lists[0].list_id != id {
        lemma_first_with_id_in(lists.drop_first(), id);
        if let Some(l) = first_with_id(lists, id) {
            let k = choose|k: int| 0 <= k < lists.drop_first().len() && lists.drop_first()[k] == l;
            assert(lists[k + 1] == l);
        }
    }
}

proof fn lemma_pick_lists(lists: Seq<ListSummary>, q: Seq<u64>)
    requires
        forall|i: int, j: int| 0 <= i < j < q.len() ==> #[trigger] q[i] != #[trigger] q[j],
    ensures
        pick_lists(lists, q).len() <= q.len(),
        forall|i: int|
            0 <= i < pick_lists(lists, q).len() ==> lists.contains(
                #[trigger] pick_lists(lists, q)[i],
            ) && q.contains(pick_lists(lists, q)[i].list_id),
        forall|i: int, j: int|
            0 <= i < j < pick_lists(lists, q).len() ==> (#[trigger] pick_lists(lists, q)[i]).list_id
                != (#[trigger] pick_lists(lists, q)[j]).list_id,
    decreases q.len(),
{
    if q.len() > 0 {
        let prefix = q.drop_last();
        assert forall|i: int, j: int| 0 <= i < j < prefix.len() implies #[trigger] prefix[i]
            != #[trigger] prefix[j] by {
            assert(prefix[i] == q[i] && prefix[j] == q[j]);
        }
        lemma_pick_lists(lists, prefix);
        let r = pick_lists(lists, prefix);
        let x = q.last();
        lemma_first_with_id_in(lists, x);
        assert forall|k: int| 0 <= k < r.len() implies q.contains(#[trigger] r[k].list_id) by {
            let m = choose|m: int| 0 <= m < prefix.len() && prefix[m] == r[k].list_id;
            assert(q[m] == r[k].list_id);
        }
        if let Some(l) = first_with_id(lists, x) {
            let out = r.push(l);
            assert(q[q.len() - 1] == x);
            assert forall|i: int, j: int| 0 <= i < j < out.len() implies (#[trigger] out[i]).list_id
                != (#[trigger] out[j]).list_id by {
                if j == out.len() - 1 {
                    assert(out[i] == r[i]);
                    let m = choose|m: int| 0 <= m < prefix.len() && prefix[m] == r[i].list_id;
                    assert(q[m] == prefix[m]);
                    assert(q[m] != q[q.len() - 1]);
                }
            }
        }
    }
}

/// The selected lists are lists that were given, with positive requested
/// ids, no id twice, and no more of them than distinct ids were requested.
pub proof fn law_selected_lists_are_requested_once(lists: Seq<ListSummary>, ids: Seq<u64>)
    ensures
        ({
            let r = selected_lists(lists, ids);
            &&& r.len() <= requested_ids(ids).len()
            &&& forall|i: int|
                0 <= i < r.len() ==> lists.contains(#[trigger] r[i]) && r[i].list_id > 0
                    && ids.contains(r[i].list_id)
            &&& forall|i: int, j: int|
                0 <= i < j < r.len() ==> (#[trigger] r[i]).list_id != (#[trigger] r[j]).list_id
        }),
{
    let q = requested_ids(ids);
    lemma_requested_ids(ids);
    lemma_pick_lists(lists, q);
    let r = selected_lists(lists, ids);
    assert forall|i: int| 0 <= i < r.len() implies lists.contains(#[trigger] r[i]) && r[i].list_id
        > 0 && ids.contains(r[i].list_id) by {
        let m = choose|m: int| 0 <= m < q.len() && q[m] == r[i].list_id;
        assert(q[m] > 0);
    }
}

/// A capped count lies in `1..=max`.
pub proof fn law_capped_in_range(value: usize, max: usize)
    requires
        max >= 1,
    ensures
        1 <= capped(value, max) <= max,
        1 <= value <= max ==> capped(value, max) == value,
{
}

proof fn lemma_requested_ids_complete(ids: Seq<u64>, id: u64)
    requires
        id > 0,
        ids.contains(id),
    ensures
        requested_ids(ids).contains(id),
    decreases ids.len(),
{
    let prefix = ids.drop_last();
    let r = requested_ids(prefix);
    if ids.last() == id {
        if r.contains(id) {
            let k = choose|k: int| 0 <= k < r.len() && r[k] == id;
            assert(requested_ids(ids)[k] == id);
        } else {
            assert(requested_ids(ids) == r.push(id));
            assert(requested_ids(ids)[r.len() as int] == id);
        }
    } else {
        let k = choose|k: int| 0 <= k < ids.len() && ids[k] == id;
        assert(prefix[k] == id);
        lemma_requested_ids_complete(prefix, id);
        let j = choose|j: int| 0 <= j < r.len() && r[j] == id;
        assert(requested_ids(ids)[j] == id);
    }
}

proof fn lemma_first_with_id_found(lists: Seq<ListSummary>, id: u64, k: int)
    requires
        0 <= k < lists.len(),
        lists[k].list_id == id,
    ensures
        first_with_id(lists, id) is Some,
    decreases lists.len(),
{
    if lists[0].list_id != id {
        assert(lists.drop_first()[k - 1] == lists[k]);
        lemma_first_with_id_found(lists.drop_first(), id, k - 1);
    }
}

proof fn lemma_pick_complete(lists: Seq<ListSummary>, q: Seq<u64>, id: u64)
    requires
        q.contains(id),
        first_with_id(lists, id) is Some,
    ensures
        exists|i: int| 0 <= i < pick_lists(lists, q).len() && (#[trigger] pick_lists(lists, q)[i]).list_id == id,
    decreases q.len(),
{
    let p = q.drop_last();
    let r = pick_lists(lists, p);
    if q.last() == id {
        lemma_first_with_id_matches(lists, id);
        let l = first_with_id(lists, id)->0;
        assert(pick_lists(lists, q) == r.push(l));
        assert(pick_lists(lists, q)[r.len() as int].list_id == id);
    } else {
        let k = choose|k: int| 0 <= k < q.len() && q[k] == id;
        assert(p[k] == id);
        lemma_pick_complete(lists, p, id);
        let i = choose|i: int| 0 <= i < r.len() && (#[trigger] r[i]).list_id == id;
        assert(pick_lists(lists, q)[i] == r[i]);
    }
}

/// Every requested list id above zero that some list carries is selected:
/// the filter drops only ids that are zero or that no list has.
pub proof fn law_requested_lists_that_exist_are_selected(
    lists: Seq<ListSummary>,
    ids: Seq<u64>,
    id: u64,
    k: int,
)
    requires
        id > 0,
        ids.contains(id),
        0 <= k < lists.len(),
        lists[k].list_id == id,
    ensures
        exists|i: int|
            0 <= i < selected_lists(lists, ids).len() && (#[trigger] selected_lists(lists, ids)[i]).list_id
                == id,
{
    lemma_requested_ids_complete(ids, id);
    lemma_first_with_id_found(lists, id, k);
    lemma_pick_complete(lists, requested_ids(ids), id);
    let r = pick_lists(lists, requested_ids(ids));
    let i = choose|i: int| 0 <= i < r.len() && (#[trigger] r[i]).list_id == id;
    assert(selected_lists(lists, ids)[i].list_id == id);
}

} // verus!
