use vstd::prelude::*;

use crate::utils::{FIX_DELIMETR, FIX_EQUALS};

verus! {

/// One field as read off the wire: its tag and its value.
pub type FieldView = (Seq<u8>, Seq<u8>);

/// A tag with every value seen for it, in the order seen.
pub type GroupView = (Seq<u8>, Seq<Seq<u8>>);

/// State of the left-to-right scan: the fields closed so far, the key and value being
/// gathered, and whether the `=` of the current field has been passed.
pub type ScanView = (Seq<FieldView>, Seq<u8>, Seq<u8>, bool);

/// One byte of the scan: the terminator closes the current field, `=` moves from key to
/// value (and is itself dropped), any other byte joins the key or the value.
pub open spec fn scan_step(s: ScanView, b: u8) -> ScanView {
    if b == FIX_DELIMETR {
        (s.0.push((s.1, s.2)), seq![], seq![], false)
    } else if b == FIX_EQUALS {
        (s.0, s.1, s.2, true)
    } else if s.3 {
        (s.0, s.1, s.2.push(b), s.3)
    } else {
        (s.0, s.1.push(b), s.2, s.3)
    }
}

pub open spec fn scan(b: Seq<u8>) -> ScanView
    decreases b.len(),
{
    if b.len() == 0 {
        (seq![], seq![], seq![], false)
    } else {
        scan_step(scan(b.drop_last()), b.last())
    }
}

/// The terminated fields of a buffer, in wire order; an unterminated tail is dropped.
pub open spec fn wire_fields(b: Seq<u8>) -> Seq<FieldView> {
    scan(b).0
}

/// Adds one value under tag `t`: after the values already held for `t`, or as a new
/// last group when `t` has none.
pub open spec fn group_insert(g: Seq<GroupView>, t: Seq<u8>, v: Seq<u8>) -> Seq<GroupView> {
    if exists|i: int| 0 <= i < g.len() && #[trigger] g[i].0 == t {
        let i = choose|i: int| 0 <= i < g.len() && #[trigger] g[i].0 == t;
        g.update(i, (t, g[i].1.push(v)))
    } else {
        g.push((t, seq![v]))
    }
}

/// Fields grouped by tag: distinct tags in order of first appearance, each with its values
/// in wire order.
pub open spec fn group_fields(f: Seq<FieldView>) -> Seq<GroupView>
    decreases f.len(),
{
    if f.len() == 0 {
        seq![]
    } else {
        group_insert(group_fields(f.drop_last()), f.last().0, f.last().1)
    }
}

/// What the splitter yields for a buffer.
pub open spec fn tag_groups(b: Seq<u8>) -> Seq<GroupView> {
    group_fields(wire_fields(b))
}

pub open spec fn distinct_tags(g: Seq<GroupView>) -> bool {
    forall|i: int, j: int| 0 <= i < g.len() && 0 <= j < g.len() && i != j ==> #[trigger] g[i].0 != #[trigger] g[j].0
}

pub open spec fn group_view(e: (Vec<u8>, Vec<Vec<u8>>)) -> GroupView {
    (e.0@, e.1@.map_values(|v: Vec<u8>| v@))
}

pub open spec fn groups_view(g: Seq<(Vec<u8>, Vec<Vec<u8>>)>) -> Seq<GroupView> {
    g.map_values(|e: (Vec<u8>, Vec<Vec<u8>>)| group_view(e))
}

pub fn bytes_equal(a: &[u8], b: &[u8]) -> (r: bool)
    ensures
        r == (a@ == b@),
{
    if a.len() != b.len() {
        return false;
    }
    let mut i: usize = 0;
    while i < a.len()
        invariant
            a@.len() == b@.len(),
            i <= a@.len(),
            forall|k: int| 0 <= k < i ==> a@[k] == b@[k],
        decreases a@.len() - i,
    {
        if a[i] != b[i] {
            return false;
        }
        i += 1;
    }
    assert(a@ =~= b@);
    true
}

fn insert_value(groups: &mut Vec<(Vec<u8>, Vec<Vec<u8>>)>, key: Vec<u8>, value: Vec<u8>)
    requires
        distinct_tags(groups_view(old(groups)@)),
    ensures
        groups_view(final(groups)@) == group_insert(groups_view(old(groups)@), key@, value@),
        distinct_tags(groups_view(final(groups)@)),
{
    let ghost g = groups_view(groups@);
    let mut i: usize = 0;
    while i < groups.len()
        invariant
            i <= groups@.len(),
            g == groups_view(groups@),
            groups@ == old(groups)@,
            distinct_tags(g),
            forall|k: int| 0 <= k < i ==> #[trigger] g[k].0 != key@,
        decreases groups@.len() - i,
    {
        if bytes_equal(groups[i].0.as_slice(), key.as_slice()) {
            let ghost before = groups@;
            assert(g[i as int].0 == key@);
            let (k, mut values) = groups.remove(i);
            values.push(value);
            let ghost entry = (k, values);
            groups.insert(i, (k, values));
            proof {
                assert(groups@ =~= before.update(i as int, entry));
                assert(values@.map_values(|v: Vec<u8>| v@) =~= g[i as int].1.push(value@));
                assert(group_view(entry) == (key@, g[i as int].1.push(value@)));
                let j = choose|j: int| 0 <= j < g.len() && #[trigger] g[j].0 == key@;
                assert(j == i);
                let n = groups_view(groups@);
                assert forall|a: int, b: int| 0 <= a < n.len() && 0 <= b < n.len() && a != b implies #[trigger] n[a].0 != #[trigger] n[b].0 by {
                    assert(n[a].0 == g[a].0);
                    assert(n[b].0 == g[b].0);
                }
                assert(group_insert(g, key@, value@) == g.update(i as int, (key@, g[i as int].1.push(value@))));
                assert(groups_view(groups@) =~= g.update(i as int, (key@, g[i as int].1.push(value@))));
            }
            return;
        }
        i += 1;
    }
    let mut values: Vec<Vec<u8>> = Vec::new();
    values.push(value);
    assert(values@.map_values(|v: Vec<u8>| v@) =~= seq![value@]);
    groups.push((key, values));
    assert(groups_view(groups@) =~= g.push((key@, seq![value@])));
    assert(group_insert(g, key@, value@) == g.push((key@, seq![value@])));
}

/// The values held for tag `t` (empty when `t` has no group).
pub open spec fn lookup(g: Seq<GroupView>, t: Seq<u8>) -> Seq<Seq<u8>> {
    if exists|i: int| 0 <= i < g.len() && #[trigger] g[i].0 == t {
        g[choose|i: int| 0 <= i < g.len() && #[trigger] g[i].0 == t].1
    } else {
        seq![]
    }
}

pub proof fn lemma_lookup_at(g: Seq<GroupView>, i: int, t: Seq<u8>)
    requires
        distinct_tags(g),
        0 <= i < g.len(),
        g[i].0 == t,
    ensures
        lookup(g, t) == g[i].1,
{
    let j = choose|j: int| 0 <= j < g.len() && #[trigger] g[j].0 == t;
    assert(g[j].0 == t);
    if j != i {
        assert(g[i].0 != g[j].0);
    }
}

/// Every group that the grouping builds holds at least one value, and no tag twice.
pub proof fn lemma_group_fields_shape(f: Seq<FieldView>)
    ensures
        distinct_tags(group_fields(f)),
        forall|i: int| 0 <= i < group_fields(f).len() ==> (#[trigger] group_fields(f)[i]).1.len() > 0,
    decreases f.len(),
{
    if f.len() > 0 {
        lemma_group_fields_shape(f.drop_last());
        let g = group_fields(f.drop_last());
        let t = f.last().0;
        let n = group_fields(f);
        if exists|i: int| 0 <= i < g.len() && #[trigger] g[i].0 == t {
            let k = choose|i: int| 0 <= i < g.len() && #[trigger] g[i].0 == t;
            assert forall|a: int, b: int| 0 <= a < n.len() && 0 <= b < n.len() && a != b implies #[trigger] n[a].0 != #[trigger] n[b].0 by {
                assert(n[a].0 == g[a].0);
                assert(n[b].0 == g[b].0);
            }
            assert forall|i: int| 0 <= i < n.len() implies (#[trigger] n[i]).1.len() > 0 by {
                if i != k {
                    assert(n[i] == g[i]);
                }
            }
        } else {
            assert forall|a: int, b: int| 0 <= a < n.len() && 0 <= b < n.len() && a != b implies #[trigger] n[a].0 != #[trigger] n[b].0 by {
                if a < g.len() && b < g.len() {
                    assert(n[a].0 == g[a].0);
                    assert(n[b].0 == g[b].0);
                } else if a < g.len() {
                    assert(n[a].0 == g[a].0);
                } else {
                    assert(n[b].0 == g[b].0);
                }
            }
            assert forall|i: int| 0 <= i < n.len() implies (#[trigger] n[i]).1.len() > 0 by {
                if i < g.len() {
                    assert(n[i] == g[i]);
                }
            }
        }
    }
}

/// Position of the group of `tag`, if there is one.
pub fn find_group(groups: &Vec<(Vec<u8>, Vec<Vec<u8>>)>, tag: &[u8]) -> (r: Option<usize>)
    ensures
        match r {
            Some(i) => i < groups@.len() && groups_view(groups@)[i as int].0 == tag@,
            None => forall|i: int| 0 <= i < groups@.len() ==> #[trigger] groups_view(groups@)[i].0 != tag@,
        },
{
    let mut i: usize = 0;
    while i < groups.len()
        invariant
            i <= groups@.len(),
            forall|k: int| 0 <= k < i ==> #[trigger] groups_view(groups@)[k].0 != tag@,
        decreases groups@.len() - i,
    {
        if bytes_equal(groups[i].0.as_slice(), tag) {
            return Some(i);
        }
        i += 1;
    }
    None
}

/// Scans one framed message into its tags, each with all of its values.
///
/// The result holds each tag once, in order of first appearance, with its values in
/// wire order. `=` moves from tag to value and is not kept; a field that no terminator
/// closes is dropped.
pub fn split_fix_to_tags(fix: &[u8]) -> (r: Vec<(Vec<u8>, Vec<Vec<u8>>)>)
    ensures
        groups_view(r@) == tag_groups(fix@),
        distinct_tags(groups_view(r@)),
        forall|i: int| 0 <= i < r@.len() ==> (#[trigger] groups_view(r@)[i]).1.len() > 0,
{
    let mut result: Vec<(Vec<u8>, Vec<Vec<u8>>)> = Vec::new();
    let mut key_buffer: Vec<u8> = Vec::new();
    let mut value_buffer: Vec<u8> = Vec::new();
    let mut is_equals_raised = false;
    let mut i: usize = 0;
    assert(groups_view(result@) =~= seq![]);
    while i < fix.len()
        invariant
            i <= fix@.len(),
            ({
                let s = scan(fix@.subrange(0, i as int));
                &&& groups_view(result@) == group_fields(s.0)
                &&& key_buffer@ == s.1
                &&& value_buffer@ == s.2
                &&& is_equals_raised == s.3
            }),
            distinct_tags(groups_view(result@)),
        decreases fix@.len() - i,
    {
        let ghost prev = fix@.subrange(0, i as int);
        assert(fix@.subrange(0, i as int + 1).drop_last() =~= prev);
        let byte = fix[i];
        if byte == FIX_DELIMETR {
            proof {
                let s = scan(prev);
                assert(s.0.push((s.1, s.2)).drop_last() =~= s.0);
            }
            insert_value(&mut result, key_buffer, value_buffer);
            key_buffer = Vec::new();
            value_buffer = Vec::new();
            is_equals_raised = false;
        } else if byte == FIX_EQUALS {
            is_equals_raised = true;
        } else if is_equals_raised {
            value_buffer.push(byte);
        } else {
            key_buffer.push(byte);
        }
        i += 1;
    }
    assert(fix@.subrange(0, i as int) =~= fix@);
    proof {
        lemma_group_fields_shape(wire_fields(fix@));
    }
    result
}

} // verus!
