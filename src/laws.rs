use vstd::prelude::*;

use crate::errors::FixSerializeError;
use crate::fix_message_builder::{
    MessageView, body_bytes, body_fields_of, checked_bytes, chunks, decoding, encoding,
    field_values, group_body_fields, is_framing_tag, lemma_field_values_add, tag_bytes,
    FIX_BODY_LEN, FIX_CHECK_SUM, FIX_MESSAGE_TYPE, FIX_VERSION,
};
use crate::tags::{
    FieldView, GroupView, ScanView, distinct_tags, group_fields, group_insert,
    lemma_group_fields_shape, lemma_lookup_at, lookup, scan, tag_groups, wire_fields,
};
use crate::utils::{
    all_digits, byte_sum, check_sum_digits, chunk, decimal, lemma_decimal_digits, FIX_DELIMETR,
    FIX_EQUALS,
};

verus! {

/// Bytes that hold neither `=` nor the terminator, and so pass the scan unchanged.
pub open spec fn plain(b: Seq<u8>) -> bool {
    forall|i: int| 0 <= i < b.len() ==> #[trigger] b[i] != FIX_EQUALS && b[i] != FIX_DELIMETR
}

proof fn lemma_digits_plain(b: Seq<u8>)
    requires
        all_digits(b),
    ensures
        plain(b),
{
    assert forall|i: int| 0 <= i < b.len() implies #[trigger] b[i] != FIX_EQUALS && b[i] != FIX_DELIMETR by {
        assert(48 <= b[i] <= 57);
    }
}

proof fn lemma_tag_bytes()
    ensures
        tag_bytes(FIX_VERSION) == seq![56u8],
        tag_bytes(FIX_BODY_LEN) == seq![57u8],
        tag_bytes(FIX_CHECK_SUM) == seq![49u8, 48u8],
        tag_bytes(FIX_MESSAGE_TYPE) == seq![51u8, 53u8],
        plain(tag_bytes(FIX_VERSION)),
        plain(tag_bytes(FIX_BODY_LEN)),
        plain(tag_bytes(FIX_CHECK_SUM)),
        plain(tag_bytes(FIX_MESSAGE_TYPE)),
{
    assert(decimal(1) == seq![49u8]);
    assert(decimal(3) == seq![51u8]);
    assert(decimal(10) =~= seq![49u8, 48u8]);
    assert(decimal(35) =~= seq![51u8, 53u8]);
    assert(decimal(8) =~= seq![56u8]);
    assert(decimal(9) =~= seq![57u8]);
    lemma_decimal_digits(8);
    lemma_decimal_digits(9);
    lemma_decimal_digits(10);
    lemma_decimal_digits(35);
    lemma_digits_plain(decimal(8));
    lemma_digits_plain(decimal(9));
    lemma_digits_plain(decimal(10));
    lemma_digits_plain(decimal(35));
}

proof fn lemma_check_sum_plain(b: Seq<u8>)
    ensures
        plain(check_sum_digits(b)),
{
    let s = byte_sum(b) % 256;
    assert(s / 100 <= 2);
    assert((s / 10) % 10 <= 9);
    assert(s % 10 <= 9);
    let d = check_sum_digits(b);
    assert(all_digits(d));
    lemma_digits_plain(d);
}

/// Plain bytes join the key or the value being gathered.
proof fn lemma_scan_plain(p: Seq<u8>, s: Seq<u8>)
    requires
        plain(s),
    ensures
        scan(p + s) == (if scan(p).3 {
            (scan(p).0, scan(p).1, scan(p).2 + s, true)
        } else {
            (scan(p).0, scan(p).1 + s, scan(p).2, false)
        }),
    decreases s.len(),
{
    if s.len() == 0 {
        assert(p + s =~= p);
        assert(scan(p).2 + s =~= scan(p).2);
        assert(scan(p).1 + s =~= scan(p).1);
    } else {
        let s0 = s.drop_last();
        assert(plain(s0)) by {
            assert forall|i: int| 0 <= i < s0.len() implies #[trigger] s0[i] != FIX_EQUALS && s0[i] != FIX_DELIMETR by {
                assert(s0[i] == s[i]);
            }
        }
        lemma_scan_plain(p, s0);
        assert((p + s).drop_last() =~= p + s0);
        assert((p + s).last() == s.last());
        assert(s.last() == s[s.len() - 1]);
        assert(scan(p).2 + s =~= (scan(p).2 + s0).push(s.last()));
        assert(scan(p).1 + s =~= (scan(p).1 + s0).push(s.last()));
    }
}

pub open spec fn clean(s: ScanView) -> bool {
    s.1.len() == 0 && s.2.len() == 0 && !s.3
}

proof fn lemma_scan_chunk(p: Seq<u8>, k: Seq<u8>, v: Seq<u8>)
    requires
        clean(scan(p)),
        plain(k),
        plain(v),
    ensures
        scan(p + chunk(k, v)) == (scan(p).0.push((k, v)), Seq::<u8>::empty(), Seq::<u8>::empty(), false),
{
    let q1 = p + k;
    lemma_scan_plain(p, k);
    assert(scan(p).1 + k =~= k);
    let q2 = q1.push(FIX_EQUALS);
    assert(q2.drop_last() =~= q1);
    assert(scan(q2) == (scan(p).0, k, Seq::<u8>::empty(), true));
    let q3 = q2 + v;
    lemma_scan_plain(q2, v);
    assert(Seq::<u8>::empty() + v =~= v);
    let q4 = q3.push(FIX_DELIMETR);
    assert(q4.drop_last() =~= q3);
    assert(p + chunk(k, v) =~= q4);
}

pub open spec fn plain_fields(f: Seq<FieldView>) -> bool {
    forall|i: int| 0 <= i < f.len() ==> plain((#[trigger] f[i]).0) && plain(f[i].1)
}

proof fn lemma_scan_chunks(p: Seq<u8>, f: Seq<FieldView>)
    requires
        clean(scan(p)),
        plain_fields(f),
    ensures
        scan(p + chunks(f)) == (scan(p).0 + f, Seq::<u8>::empty(), Seq::<u8>::empty(), false),
    decreases f.len(),
{
    if f.len() == 0 {
        assert(p + chunks(f) =~= p);
        assert(scan(p).0 + f =~= scan(p).0);
    } else {
        let f0 = f.drop_last();
        assert(plain_fields(f0)) by {
            assert forall|i: int| 0 <= i < f0.len() implies plain((#[trigger] f0[i]).0) && plain(f0[i].1) by {
                assert(f0[i] == f[i]);
            }
        }
        lemma_scan_chunks(p, f0);
        let x = f.last();
        assert(x == f[f.len() - 1]);
        assert(p + chunks(f) =~= (p + chunks(f0)) + chunk(x.0, x.1));
        lemma_scan_chunk(p + chunks(f0), x.0, x.1);
        assert((scan(p).0 + f0).push(x) =~= scan(p).0 + f);
    }
}

proof fn lemma_field_values_one(x: FieldView, t: Seq<u8>)
    ensures
        field_values(seq![x], t) == (if x.0 == t {
            seq![x.1]
        } else {
            Seq::<Seq<u8>>::empty()
        }),
{
    assert(seq![x].drop_last() =~= Seq::<FieldView>::empty());
    assert(seq![x].last() == x);
    assert(field_values(Seq::<FieldView>::empty(), t) == Seq::<Seq<u8>>::empty());
    assert(Seq::<Seq<u8>>::empty().push(x.1) =~= seq![x.1]);
}

proof fn lemma_field_values_absent(f: Seq<FieldView>, t: Seq<u8>)
    requires
        forall|i: int| 0 <= i < f.len() ==> (#[trigger] f[i]).0 != t,
    ensures
        field_values(f, t) == Seq::<Seq<u8>>::empty(),
    decreases f.len(),
{
    if f.len() > 0 {
        let f0 = f.drop_last();
        assert forall|i: int| 0 <= i < f0.len() implies (#[trigger] f0[i]).0 != t by {
            assert(f0[i] == f[i]);
        }
        lemma_field_values_absent(f0, t);
        assert(f.last() == f[f.len() - 1]);
    }
}

/// Grouping keeps, under each tag, exactly the values that the fields give it.
proof fn lemma_lookup_group(f: Seq<FieldView>, t: Seq<u8>)
    ensures
        lookup(group_fields(f), t) == field_values(f, t),
    decreases f.len(),
{
    if f.len() > 0 {
        let f0 = f.drop_last();
        let x = f.last();
        lemma_lookup_group(f0, t);
        lemma_group_fields_shape(f0);
        lemma_group_fields_shape(f);
        let g = group_fields(f0);
        let n = group_fields(f);
        assert(n == group_insert(g, x.0, x.1));
        if exists|i: int| 0 <= i < g.len() && #[trigger] g[i].0 == x.0 {
            let k = choose|i: int| 0 <= i < g.len() && #[trigger] g[i].0 == x.0;
            assert(n == g.update(k, (x.0, g[k].1.push(x.1))));
            if t == x.0 {
                lemma_lookup_at(n, k, t);
                lemma_lookup_at(g, k, t);
            } else if exists|j: int| 0 <= j < g.len() && #[trigger] g[j].0 == t {
                let j = choose|j: int| 0 <= j < g.len() && #[trigger] g[j].0 == t;
                assert(j != k);
                assert(n[j] == g[j]);
                lemma_lookup_at(n, j, t);
                lemma_lookup_at(g, j, t);
            } else {
                assert forall|j: int| 0 <= j < n.len() implies #[trigger] n[j].0 != t by {
                    if j != k {
                        assert(n[j] == g[j]);
                    }
                }
            }
        } else {
            assert(n == g.push((x.0, seq![x.1])));
            let last = g.len() as int;
            if t == x.0 {
                lemma_lookup_at(n, last, t);
                assert(field_values(f0, t) == Seq::<Seq<u8>>::empty());
                assert(Seq::<Seq<u8>>::empty().push(x.1) =~= seq![x.1]);
            } else if exists|j: int| 0 <= j < g.len() && #[trigger] g[j].0 == t {
                let j = choose|j: int| 0 <= j < g.len() && #[trigger] g[j].0 == t;
                assert(n[j] == g[j]);
                lemma_lookup_at(n, j, t);
                lemma_lookup_at(g, j, t);
            } else {
                assert forall|j: int| 0 <= j < n.len() implies #[trigger] n[j].0 != t by {
                    if j < g.len() {
                        assert(n[j] == g[j]);
                    }
                }
            }
        }
    }
}

/// The values of tag `t` that decoding keeps as body fields.
pub open spec fn kept_values(t: Seq<u8>, vs: Seq<Seq<u8>>) -> Seq<Seq<u8>> {
    if is_framing_tag(t) {
        seq![]
    } else if t == tag_bytes(FIX_MESSAGE_TYPE) && vs.len() > 0 {
        vs.subrange(1, vs.len() as int)
    } else {
        vs
    }
}

proof fn lemma_field_values_map(tag: Seq<u8>, vs: Seq<Seq<u8>>, t: Seq<u8>)
    ensures
        field_values(vs.map_values(|v: Seq<u8>| (tag, v)), t) == (if tag == t {
            vs
        } else {
            Seq::<Seq<u8>>::empty()
        }),
    decreases vs.len(),
{
    let f = vs.map_values(|v: Seq<u8>| (tag, v));
    if vs.len() > 0 {
        lemma_field_values_map(tag, vs.drop_last(), t);
        assert(f.drop_last() =~= vs.drop_last().map_values(|v: Seq<u8>| (tag, v)));
        assert(f.last() == (tag, vs.last()));
        if tag == t {
            assert(vs.drop_last().push(vs.last()) =~= vs);
        }
    } else {
        assert(vs =~= Seq::<Seq<u8>>::empty());
    }
}

proof fn lemma_body_fields_values(g: Seq<GroupView>, t: Seq<u8>)
    requires
        distinct_tags(g),
    ensures
        field_values(body_fields_of(g), t) == kept_values(t, lookup(g, t)),
    decreases g.len(),
{
    if g.len() == 0 {
        assert(lookup(g, t) == Seq::<Seq<u8>>::empty());
    } else {
        let g0 = g.drop_last();
        let e = g.last();
        assert(distinct_tags(g0)) by {
            assert forall|a: int, b: int| 0 <= a < g0.len() && 0 <= b < g0.len() && a != b implies #[trigger] g0[a].0 != #[trigger] g0[b].0 by {
                assert(g0[a] == g[a]);
                assert(g0[b] == g[b]);
            }
        }
        lemma_body_fields_values(g0, t);
        lemma_field_values_add(body_fields_of(g0), group_body_fields(e), t);
        let last = g.len() - 1;
        assert(e == g[last]);
        if e.0 == t {
            lemma_lookup_at(g, last, t);
            assert forall|j: int| 0 <= j < g0.len() implies #[trigger] g0[j].0 != t by {
                assert(g0[j] == g[j]);
                assert(g[j].0 != g[last].0);
            }
            assert(lookup(g0, t) == Seq::<Seq<u8>>::empty());
            if is_framing_tag(e.0) {
                lemma_field_values_absent(group_body_fields(e), t);
            } else if e.0 == tag_bytes(FIX_MESSAGE_TYPE) && e.1.len() > 0 {
                lemma_field_values_map(e.0, e.1.subrange(1, e.1.len() as int), t);
            } else {
                lemma_field_values_map(e.0, e.1, t);
            }
            assert(Seq::<Seq<u8>>::empty() + kept_values(t, e.1) =~= kept_values(t, e.1));
        } else {
            if is_framing_tag(e.0) {
                lemma_field_values_absent(group_body_fields(e), t);
            } else if e.0 == tag_bytes(FIX_MESSAGE_TYPE) && e.1.len() > 0 {
                lemma_field_values_map(e.0, e.1.subrange(1, e.1.len() as int), t);
            } else {
                lemma_field_values_map(e.0, e.1, t);
            }
            if exists|j: int| 0 <= j < g0.len() && #[trigger] g0[j].0 == t {
                let j = choose|j: int| 0 <= j < g0.len() && #[trigger] g0[j].0 == t;
                assert(g[j] == g0[j]);
                lemma_lookup_at(g, j, t);
                lemma_lookup_at(g0, j, t);
            } else {
                assert forall|j: int| 0 <= j < g.len() implies #[trigger] g[j].0 != t by {
                    if j < g0.len() {
                        assert(g0[j] == g[j]);
                    }
                }
            }
            let k = kept_values(t, lookup(g0, t));
            assert(k + Seq::<Seq<u8>>::empty() =~= k);
        }
    }
}

proof fn lemma_chunks_add(a: Seq<FieldView>, b: Seq<FieldView>)
    ensures
        chunks(a + b) == chunks(a) + chunks(b),
    decreases b.len(),
{
    if b.len() == 0 {
        assert(a + b =~= a);
        assert(chunks(a) + chunks(b) =~= chunks(a));
    } else {
        lemma_chunks_add(a, b.drop_last());
        assert((a + b).drop_last() =~= a + b.drop_last());
        assert((a + b).last() == b.last());
        let x = b.last();
        assert(chunks(a) + chunks(b) =~= (chunks(a) + chunks(b.drop_last())) + chunk(x.0, x.1));
    }
}

proof fn lemma_byte_sum_add(a: Seq<u8>, b: Seq<u8>)
    ensures
        byte_sum(a + b) == byte_sum(a) + byte_sum(b),
    decreases b.len(),
{
    if b.len() == 0 {
        assert(a + b =~= a);
    } else {
        lemma_byte_sum_add(a, b.drop_last());
        assert((a + b).drop_last() =~= a + b.drop_last());
        assert((a + b).last() == b.last());
    }
}

proof fn lemma_last_of_tag(b: Seq<FieldView>, t: Seq<u8>) -> (j: int)
    requires
        field_values(b, t).len() > 0,
    ensures
        0 <= j < b.len(),
        b[j].0 == t,
        forall|k: int| j < k < b.len() ==> (#[trigger] b[k]).0 != t,
    decreases b.len(),
{
    if b.last().0 == t {
        b.len() - 1
    } else {
        let b0 = b.drop_last();
        let j = lemma_last_of_tag(b0, t);
        assert(b[j] == b0[j]);
        assert forall|k: int| j < k < b.len() implies (#[trigger] b[k]).0 != t by {
            if k < b.len() - 1 {
                assert(b[k] == b0[k]);
            }
        }
        j
    }
}

/// Two field sequences that hold the same values under every tag have body chunks of
/// the same length and the same byte sum.
proof fn lemma_same_values_same_chunks(a: Seq<FieldView>, b: Seq<FieldView>)
    requires
        forall|t: Seq<u8>| #[trigger] field_values(a, t) == field_values(b, t),
    ensures
        chunks(a).len() == chunks(b).len(),
        byte_sum(chunks(a)) == byte_sum(chunks(b)),
    decreases a.len(),
{
    if a.len() == 0 {
        if b.len() > 0 {
            let t = b.last().0;
            assert(field_values(b, t).len() > 0);
            assert(field_values(a, t).len() == 0);
        }
    } else {
        let a0 = a.drop_last();
        let x = a.last();
        let t = x.0;
        assert(field_values(a, t) == field_values(a0, t).push(x.1));
        let j = lemma_last_of_tag(b, t);
        let p = b.subrange(0, j);
        let q = b.subrange(j + 1, b.len() as int);
        let y = b[j];
        assert(b =~= p + seq![y] + q);
        lemma_field_values_absent(q, t);
        lemma_field_values_add(p + seq![y], q, t);
        lemma_field_values_add(p, seq![y], t);
        lemma_field_values_one(y, t);
        assert(field_values(b, t) =~= field_values(p, t).push(y.1));
        assert(field_values(a, t) == field_values(b, t));
        assert(field_values(b, t).last() == y.1);
        assert(field_values(a, t).last() == x.1);
        assert(y.0 == x.0 && y.1 == x.1);
        assert(y == x);
        let b0 = p + q;
        assert forall|s: Seq<u8>| #[trigger] field_values(a0, s) == field_values(b0, s) by {
            lemma_field_values_add(p + seq![y], q, s);
            lemma_field_values_add(p, seq![y], s);
            lemma_field_values_add(p, q, s);
            lemma_field_values_one(y, s);
            assert(field_values(a, s) == field_values(b, s));
            lemma_field_values_absent(q, t);
            if s == t {
                assert(field_values(a0, s) =~= field_values(a, s).drop_last());
                assert(field_values(b, s) =~= (field_values(p, s) + seq![y.1]) + Seq::<Seq<u8>>::empty());
                assert(field_values(b0, s) =~= field_values(p, s) + Seq::<Seq<u8>>::empty());
                assert(field_values(b0, s) =~= field_values(b, s).drop_last());
            } else {
                assert(field_values(a0, s) == field_values(a, s));
                assert(field_values(b, s) =~= (field_values(p, s) + Seq::<Seq<u8>>::empty()) + field_values(q, s));
                assert(field_values(b0, s) =~= field_values(b, s));
            }
        }
        lemma_same_values_same_chunks(a0, b0);
        lemma_chunks_add(p, q);
        lemma_chunks_add(p + seq![y], q);
        lemma_chunks_add(p, seq![y]);
        lemma_chunks_add(a0, seq![x]);
        assert(a0 + seq![x] =~= a);
        assert(seq![y].drop_last() =~= Seq::<FieldView>::empty());
        assert(seq![y].last() == y);
        assert(chunks(Seq::<FieldView>::empty()) == Seq::<u8>::empty());
        assert(chunks(seq![y]) == chunks(Seq::<FieldView>::empty()) + chunk(y.0, y.1));
        assert(chunks(seq![y]) =~= chunk(y.0, y.1));
        lemma_byte_sum_add(chunks(p), chunks(q));
        lemma_byte_sum_add(chunks(p) + chunk(y.0, y.1), chunks(q));
        lemma_byte_sum_add(chunks(p), chunk(y.0, y.1));
        lemma_byte_sum_add(chunks(a0), chunk(x.0, x.1));
    }
}

proof fn lemma_wire_values(
    a: FieldView,
    b: FieldView,
    c: FieldView,
    f: Seq<FieldView>,
    z: FieldView,
    t: Seq<u8>,
)
    ensures
        field_values(seq![a, b, c] + f + seq![z], t) == field_values(seq![a], t) + field_values(
            seq![b],
            t,
        ) + field_values(seq![c], t) + field_values(f, t) + field_values(seq![z], t),
{
    assert(seq![a, b, c] =~= seq![a] + seq![b] + seq![c]);
    lemma_field_values_add(seq![a], seq![b], t);
    lemma_field_values_add(seq![a] + seq![b], seq![c], t);
    lemma_field_values_add(seq![a, b, c], f, t);
    lemma_field_values_add(seq![a, b, c] + f, seq![z], t);
}

/// Round trip: a message decodes, with checksum validation, from its own encoding, and
/// comes back with the same version, the same message type and, under every tag, the
/// same values in the same order.
///
/// This holds of every message whose version, message type, tags and values hold
/// neither `=` (which the scan drops) nor the terminator, and whose body holds no field
/// with a framing tag (8, 9 or 10).
pub proof fn lemma_round_trip(m: MessageView)
    requires
        plain(m.version),
        plain(m.message_type),
        plain_fields(m.fields),
        forall|i: int| 0 <= i < m.fields.len() ==> !is_framing_tag((#[trigger] m.fields[i]).0),
    ensures
        decoding(encoding(m), true) is Ok,
        decoding(encoding(m), true)->Ok_0.version == m.version,
        decoding(encoding(m), true)->Ok_0.message_type == m.message_type,
        forall|t: Seq<u8>|
            field_values(#[trigger] decoding(encoding(m), true)->Ok_0.fields, t) == field_values(
                m.fields,
                t,
            ),
{
    lemma_tag_bytes();
    let t8 = tag_bytes(FIX_VERSION);
    let t9 = tag_bytes(FIX_BODY_LEN);
    let t10 = tag_bytes(FIX_CHECK_SUM);
    let t35 = tag_bytes(FIX_MESSAGE_TYPE);
    let d = decimal(body_bytes(m).len());
    lemma_decimal_digits(body_bytes(m).len());
    lemma_digits_plain(d);
    let cb = checked_bytes(m);
    let cs = check_sum_digits(cb);
    lemma_check_sum_plain(cb);
    let e = encoding(m);

    let p0 = Seq::<u8>::empty();
    let p1 = p0 + chunk(t8, m.version);
    lemma_scan_chunk(p0, t8, m.version);
    let p2 = p1 + chunk(t9, d);
    lemma_scan_chunk(p1, t9, d);
    let p3 = p2 + chunk(t35, m.message_type);
    lemma_scan_chunk(p2, t35, m.message_type);
    let p4 = p3 + chunks(m.fields);
    lemma_scan_chunks(p3, m.fields);
    let p5 = p4 + chunk(t10, cs);
    lemma_scan_chunk(p4, t10, cs);
    assert(e =~= p5);
    let a = (t8, m.version);
    let b = (t9, d);
    let c = (t35, m.message_type);
    let z = (t10, cs);
    let w = seq![a, b, c] + m.fields + seq![z];
    assert(wire_fields(e) =~= w);
    let g = group_fields(w);
    assert(tag_groups(e) == g);
    lemma_group_fields_shape(w);

    assert forall|i: int| 0 <= i < m.fields.len() implies (#[trigger] m.fields[i]).0 != t8
        && m.fields[i].0 != t9 && m.fields[i].0 != t10 by {
        assert(!is_framing_tag(m.fields[i].0));
    }
    lemma_field_values_absent(m.fields, t8);
    lemma_field_values_absent(m.fields, t9);
    lemma_field_values_absent(m.fields, t10);

    assert forall|t: Seq<u8>| #[trigger] lookup(g, t) == field_values(w, t) by {
        lemma_lookup_group(w, t);
    }
    assert forall|t: Seq<u8>| #[trigger] field_values(w, t) == field_values(seq![a], t) + field_values(seq![b], t)
        + field_values(seq![c], t) + field_values(m.fields, t) + field_values(seq![z], t) by {
        lemma_wire_values(a, b, c, m.fields, z, t);
        lemma_field_values_one(a, t);
        lemma_field_values_one(b, t);
        lemma_field_values_one(c, t);
        lemma_field_values_one(z, t);
    }
    lemma_field_values_one(a, t8);
    lemma_field_values_one(b, t8);
    lemma_field_values_one(c, t8);
    lemma_field_values_one(z, t8);
    lemma_field_values_one(a, t35);
    lemma_field_values_one(b, t35);
    lemma_field_values_one(c, t35);
    lemma_field_values_one(z, t35);
    lemma_field_values_one(a, t10);
    lemma_field_values_one(b, t10);
    lemma_field_values_one(c, t10);
    lemma_field_values_one(z, t10);
    assert(t8[0] != t9[0] && t8.len() != t10.len() && t8.len() != t35.len());
    assert(t9.len() != t10.len() && t9.len() != t35.len() && t10[0] != t35[0]);
    assert(field_values(w, t8) == field_values(seq![a], t8) + field_values(seq![b], t8)
        + field_values(seq![c], t8) + field_values(m.fields, t8) + field_values(seq![z], t8));
    assert(field_values(w, t35) == field_values(seq![a], t35) + field_values(seq![b], t35)
        + field_values(seq![c], t35) + field_values(m.fields, t35) + field_values(seq![z], t35));
    assert(field_values(w, t10) == field_values(seq![a], t10) + field_values(seq![b], t10)
        + field_values(seq![c], t10) + field_values(m.fields, t10) + field_values(seq![z], t10));
    let versions = lookup(g, t8);
    let types = lookup(g, t35);
    let sums = lookup(g, t10);
    assert(versions =~= seq![m.version]);
    assert(types =~= seq![m.message_type] + field_values(m.fields, t35));
    assert(sums =~= seq![cs]);

    let r = MessageView { version: m.version, message_type: m.message_type, fields: body_fields_of(g) };
    assert forall|t: Seq<u8>| #[trigger] field_values(r.fields, t) == field_values(m.fields, t) by {
        lemma_body_fields_values(g, t);
        lemma_field_values_one(a, t);
        lemma_field_values_one(b, t);
        lemma_field_values_one(c, t);
        lemma_field_values_one(z, t);
        let fv = field_values(m.fields, t);
        if is_framing_tag(t) {
            lemma_field_values_absent(m.fields, t);
        } else if t == t35 {
            assert(field_values(w, t) =~= seq![m.message_type] + fv);
            assert((seq![m.message_type] + fv).subrange(1, fv.len() + 1 as int) =~= fv);
        } else {
            assert(field_values(w, t) =~= fv);
        }
    }
    lemma_same_values_same_chunks(r.fields, m.fields);
    let head = chunk(t35, m.message_type);
    lemma_byte_sum_add(head, chunks(r.fields));
    lemma_byte_sum_add(head, chunks(m.fields));
    assert(body_bytes(r).len() == body_bytes(m).len());
    let front = chunk(t8, m.version) + chunk(t9, d);
    lemma_byte_sum_add(front, body_bytes(r));
    lemma_byte_sum_add(front, body_bytes(m));
    assert(checked_bytes(r) == front + body_bytes(r));
    assert(checked_bytes(m) == front + body_bytes(m));
    assert(check_sum_digits(checked_bytes(r)) == cs);
    assert(decoding(e, true) == Ok::<MessageView, FixSerializeError>(r));
}

/// Missing tags: a buffer with no field of tag 8 fails to decode with
/// `VersionTagNotFoundInSource`; one with tag 8 but no tag 35 with
/// `MessageTypeTagNotFoundInSource`; one with both but no tag 10, under checksum
/// validation, with `CheckSumTagNotFoundInSource`.
pub proof fn lemma_missing_tags(b: Seq<u8>, validate: bool)
    ensures
        field_values(wire_fields(b), tag_bytes(FIX_VERSION)).len() == 0 ==> decoding(b, validate)
            == Err::<MessageView, FixSerializeError>(FixSerializeError::VersionTagNotFoundInSource),
        field_values(wire_fields(b), tag_bytes(FIX_VERSION)).len() > 0 && field_values(
            wire_fields(b),
            tag_bytes(FIX_MESSAGE_TYPE),
        ).len() == 0 ==> decoding(b, validate) == Err::<MessageView, FixSerializeError>(
            FixSerializeError::MessageTypeTagNotFoundInSource,
        ),
        field_values(wire_fields(b), tag_bytes(FIX_VERSION)).len() > 0 && field_values(
            wire_fields(b),
            tag_bytes(FIX_MESSAGE_TYPE),
        ).len() > 0 && field_values(wire_fields(b), tag_bytes(FIX_CHECK_SUM)).len() == 0 && validate
            ==> decoding(b, validate) == Err::<MessageView, FixSerializeError>(
            FixSerializeError::CheckSumTagNotFoundInSource,
        ),
{
    lemma_lookup_group(wire_fields(b), tag_bytes(FIX_VERSION));
    lemma_lookup_group(wire_fields(b), tag_bytes(FIX_MESSAGE_TYPE));
    lemma_lookup_group(wire_fields(b), tag_bytes(FIX_CHECK_SUM));
}

/// Checksum enforcement: a buffer that holds tags 8, 35 and 10 always decodes without
/// validation; with validation it decodes to the same message when its first checksum
/// value matches the checksum of that message, and fails with `InvalidCheckSum` when not.
pub proof fn lemma_check_sum_enforced(b: Seq<u8>)
    requires
        field_values(wire_fields(b), tag_bytes(FIX_VERSION)).len() > 0,
        field_values(wire_fields(b), tag_bytes(FIX_MESSAGE_TYPE)).len() > 0,
        field_values(wire_fields(b), tag_bytes(FIX_CHECK_SUM)).len() > 0,
    ensures
        decoding(b, false) is Ok,
        field_values(wire_fields(b), tag_bytes(FIX_CHECK_SUM))[0] == check_sum_digits(
            checked_bytes(decoding(b, false)->Ok_0),
        ) ==> decoding(b, true) == decoding(b, false),
        field_values(wire_fields(b), tag_bytes(FIX_CHECK_SUM))[0] != check_sum_digits(
            checked_bytes(decoding(b, false)->Ok_0),
        ) ==> decoding(b, true) == Err::<MessageView, FixSerializeError>(
            FixSerializeError::InvalidCheckSum,
        ),
{
    lemma_lookup_group(wire_fields(b), tag_bytes(FIX_VERSION));
    lemma_lookup_group(wire_fields(b), tag_bytes(FIX_MESSAGE_TYPE));
    lemma_lookup_group(wire_fields(b), tag_bytes(FIX_CHECK_SUM));
}

/// A tag set twice keeps both values, after those it had, in the order they were set.
pub proof fn lemma_repeated_tag_kept(f: Seq<FieldView>, t: Seq<u8>, v1: Seq<u8>, v2: Seq<u8>)
    ensures
        field_values(f.push((t, v1)).push((t, v2)), t) == field_values(f, t) + seq![v1, v2],
{
    let f1 = f.push((t, v1));
    let f2 = f1.push((t, v2));
    assert(f2.drop_last() =~= f1);
    assert(f1.drop_last() =~= f);
    assert(f2.last() == (t, v2));
    assert(f1.last() == (t, v1));
    assert(field_values(f1, t) == field_values(f, t).push(v1));
    assert(field_values(f2, t) == field_values(f1, t).push(v2));
    assert(field_values(f, t) + seq![v1, v2] =~= field_values(f, t).push(v1).push(v2));
}

} // verus!
