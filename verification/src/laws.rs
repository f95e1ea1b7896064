use vstd::prelude::*;
use crate::merge::{merge_entries, merge_node, spec_find, lemma_spec_find, Conflict};
use crate::value::{Node, uniq_keys, wf_entries, wf_node};

verus! {

/// The first entry of `t` with key `k` is the one at `j`.
proof fn lemma_spec_find_at(t: Seq<(Seq<char>, Node)>, k: Seq<char>, j: int)
    requires
        0 <= j < t.len(),
        t[j].0 == k,
        forall|m: int| 0 <= m < j ==> (#[trigger] t[m]).0 != k,
    ensures
        spec_find(t, k) == Some(j),
{
    lemma_spec_find(t, k);
}

/// `t` has no entry with key `k` at all.
proof fn lemma_spec_find_none(t: Seq<(Seq<char>, Node)>, k: Seq<char>)
    requires
        forall|m: int| 0 <= m < t.len() ==> (#[trigger] t[m]).0 != k,
    ensures
        spec_find(t, k) is None,
{
    lemma_spec_find(t, k);
}

/// Merging entries none of whose keys occur in the accumulator appends them,
/// in order and unchanged, whatever the policy.
pub proof fn lemma_merge_disjoint_appends(
    t: Seq<(Seq<char>, Node)>,
    s: Seq<(Seq<char>, Node)>,
    merge_nested: bool,
    extend_array: bool,
)
    requires
        uniq_keys(s),
        forall|i: int, j: int|
            0 <= i < t.len() && 0 <= j < s.len() ==> (#[trigger] t[i]).0 != (#[trigger] s[j]).0,
    ensures
        merge_entries(t, s, merge_nested, extend_array) == Ok::<_, Conflict>(t + s),
    decreases s.len(),
{
    if s.len() == 0 {
        assert(t + s =~= t);
    } else {
        lemma_spec_find_none(t, s[0].0);
        let t2 = t.push(s[0]);
        let s2 = s.subrange(1, s.len() as int);
        assert(forall|i: int, j: int|
            0 <= i < t2.len() && 0 <= j < s2.len() ==> (#[trigger] t2[i]).0 != (
            #[trigger] s2[j]).0);
        lemma_merge_disjoint_appends(t2, s2, merge_nested, extend_array);
        assert(t2 + s2 =~= t + s);
    }
}

/// Merging a document into the empty accumulator yields that document
/// unchanged, whatever the policy.
pub proof fn lemma_baseline_insert(s: Seq<(Seq<char>, Node)>, merge_nested: bool, extend_array: bool)
    requires
        uniq_keys(s),
    ensures
        merge_entries(Seq::empty(), s, merge_nested, extend_array) == Ok::<_, Conflict>(s),
{
    lemma_merge_disjoint_appends(Seq::empty(), s, merge_nested, extend_array);
    assert(Seq::<(Seq<char>, Node)>::empty() + s =~= s);
}

/// A key whose current value is a scalar, that is neither an object nor an
/// array, is replaced in place by the later document's value for it, whatever
/// that value is and whatever the policy.
pub proof fn lemma_scalar_override(
    t: Seq<(Seq<char>, Node)>,
    i: int,
    k: Seq<char>,
    v: Node,
    merge_nested: bool,
    extend_array: bool,
)
    requires
        0 <= i < t.len(),
        spec_find(t, k) == Some(i),
        !(t[i].1 is Obj),
        !(t[i].1 is Arr),
    ensures
        merge_entries(t, seq![(k, v)], merge_nested, extend_array) == Ok::<_, Conflict>(
            t.update(i, (k, v)),
        ),
{
    let s = seq![(k, v)];
    assert(s.len() == 1 && s[0] == (k, v));
    assert(merge_node(k, t[i].1, v, merge_nested, extend_array) == Ok::<Node, Conflict>(v));
    let t2 = t.update(i, (k, v));
    assert(s.subrange(1, s.len() as int).len() == 0);
    assert(merge_entries(t2, s.subrange(1, s.len() as int), merge_nested, extend_array) == Ok::<
        _,
        Conflict,
    >(t2));
}

/// Merging two well-formed values yields a well-formed value: distinct keys
/// stay distinct at every depth.
pub proof fn lemma_merge_node_wf(
    key: Seq<char>,
    cur: Node,
    src: Node,
    merge_nested: bool,
    extend_array: bool,
)
    requires
        wf_node(cur),
        wf_node(src),
    ensures
        merge_node(key, cur, src, merge_nested, extend_array) matches Ok(m) ==> wf_node(m),
    decreases src, 0int,
{
    match cur {
        Node::Obj(t) => {
            if merge_nested && src is Obj {
                let s = src->Obj_0;
                lemma_merge_entries_wf(t, s, merge_nested, extend_array);
            }
        },
        Node::Arr(t) => {
            if extend_array && src is Arr {
                let s = src->Arr_0;
                if merge_node(key, cur, src, merge_nested, extend_array) matches Ok(m) {
                    assert forall|i: int| 0 <= i < t.len() + s.len() implies wf_node(
                        #[trigger] (t + s)[i],
                    ) by {
                        if i < t.len() {
                            assert((t + s)[i] == t[i]);
                        } else {
                            assert((t + s)[i] == s[i - t.len()]);
                        }
                    }
                }
            }
        },
        _ => {
        },
    }
}

/// Merging two well-formed documents yields a well-formed document.
pub proof fn lemma_merge_entries_wf(
    t: Seq<(Seq<char>, Node)>,
    s: Seq<(Seq<char>, Node)>,
    merge_nested: bool,
    extend_array: bool,
)
    requires
        wf_entries(t),
        wf_entries(s),
    ensures
        merge_entries(t, s, merge_nested, extend_array) matches Ok(m) ==> wf_entries(m),
    decreases s, 1int,
{
    if s.len() > 0 {
        let k = s[0].0;
        let v = s[0].1;
        let s2 = s.subrange(1, s.len() as int);
        assert(wf_entries(s2)) by {
            assert(forall|i: int| 0 <= i < s2.len() ==> #[trigger] s2[i] == s[i + 1]);
        }
        lemma_spec_find(t, k);
        match spec_find(t, k) {
            None => {
                let t2 = t.push((k, v));
                assert(wf_entries(t2));
                lemma_merge_entries_wf(t2, s2, merge_nested, extend_array);
            },
            Some(i) => {
                assert(decreases_to!(s => s[0]));
                assert(decreases_to!(s[0] => s[0].1));
                lemma_merge_node_wf(k, t[i].1, v, merge_nested, extend_array);
                let mr = merge_node(k, t[i].1, v, merge_nested, extend_array);
                if mr is Ok {
                    let m = mr->Ok_0;
                    let t2 = t.update(i, (k, m));
                    assert(wf_entries(t2)) by {
                        assert(t[i].0 == k);
                        assert(forall|x: int|
                            0 <= x < t2.len() ==> (#[trigger] t2[x]).0 == t[x].0);
                    }
                    lemma_merge_entries_wf(t2, s2, merge_nested, extend_array);
                }
            },
        }
    }
}

/// A document with every array that sits at a key, at any object depth,
/// concatenated with itself; what arrays hold, and everything else, is kept.
pub open spec fn double_arrays(n: Node) -> Node
    decreases n, 0int,
{
    match n {
        Node::Obj(es) => Node::Obj(double_entries(es)),
        Node::Arr(a) => Node::Arr(a + a),
        _ => n,
    }
}

/// `double_arrays`, entry by entry.
pub open spec fn double_entries(es: Seq<(Seq<char>, Node)>) -> Seq<(Seq<char>, Node)>
    decreases es, 1int,
{
    if es.len() == 0 {
        Seq::empty()
    } else {
        seq![(es[0].0, double_arrays(es[0].1))] + double_entries(es.subrange(1, es.len() as int))
    }
}

pub broadcast proof fn lemma_double_entries_len(es: Seq<(Seq<char>, Node)>)
    ensures
        #[trigger] double_entries(es).len() == es.len(),
    decreases es.len(),
{
    if es.len() > 0 {
        lemma_double_entries_len(es.subrange(1, es.len() as int));
    }
}

pub broadcast proof fn lemma_double_entries_index(es: Seq<(Seq<char>, Node)>, i: int)
    requires
        0 <= i < es.len(),
    ensures
        double_entries(es).len() == es.len(),
        #[trigger] double_entries(es)[i] == (es[i].0, double_arrays(es[i].1)),
    decreases es.len(),
{
    lemma_double_entries_len(es);
    if i > 0 {
        lemma_double_entries_index(es.subrange(1, es.len() as int), i - 1);
    }
}

/// After the first `j` entries of `d` have been merged with themselves, the
/// rest of the self-merge still goes through and doubles the arrays of the
/// remaining entries.
proof fn lemma_merge_self_from(d: Seq<(Seq<char>, Node)>, j: int)
    requires
        0 <= j <= d.len(),
        uniq_keys(d),
        forall|m: int| 0 <= m < d.len() ==> wf_node((#[trigger] d[m]).1),
    ensures
        merge_entries(
            double_entries(d.subrange(0, j)) + d.subrange(j, d.len() as int),
            d.subrange(j, d.len() as int),
            true,
            true,
        ) == Ok::<_, Conflict>(double_entries(d)),
    decreases d, 1int, d.len() - j,
{
    broadcast use {lemma_double_entries_len, lemma_double_entries_index};

    let pre = d.subrange(0, j);
    let suf = d.subrange(j, d.len() as int);
    let t = double_entries(pre) + suf;
    if j == d.len() {
        assert(suf.len() == 0);
        assert(pre =~= d);
        assert(t =~= double_entries(d));
    } else {
        let k = d[j].0;
        let v = d[j].1;
        assert(suf[0] == (k, v));
        assert(t[j] == (k, v)) by {
            assert(suf[j - j] == d[j]);
        }
        assert forall|m: int| 0 <= m < j implies (#[trigger] t[m]).0 != k by {
            assert(t[m] == double_entries(pre)[m]);
            assert(double_entries(pre)[m] == (pre[m].0, double_arrays(pre[m].1)));
            assert(pre[m].0 == d[m].0);
        }
        lemma_spec_find_at(t, k, j);
        assert(decreases_to!(d => d[j]));
        assert(decreases_to!(d[j] => d[j].1));
        lemma_merge_node_self(k, v);
        let m = double_arrays(v);
        let t2 = t.update(j, (k, m));
        let s2 = suf.subrange(1, suf.len() as int);
        assert(t2 =~= double_entries(d.subrange(0, j + 1)) + d.subrange(j + 1, d.len() as int))
            by {
            assert(double_entries(d.subrange(0, j + 1)).len() == j + 1);
            assert(forall|x: int|
                0 <= x < j + 1 ==> #[trigger] double_entries(d.subrange(0, j + 1))[x] == (
                d.subrange(0, j + 1)[x].0,
                double_arrays(d.subrange(0, j + 1)[x].1),
                ));
        }
        assert(s2 =~= d.subrange(j + 1, d.len() as int));
        lemma_merge_self_from(d, j + 1);
    }
}

/// Merging a well-formed value with itself under both policies doubles its
/// arrays, recursively through objects.
proof fn lemma_merge_node_self(k: Seq<char>, v: Node)
    requires
        wf_node(v),
    ensures
        merge_node(k, v, v, true, true) == Ok::<Node, Conflict>(double_arrays(v)),
    decreases v, 0int, 0int,
{
    match v {
        Node::Obj(es) => {
            lemma_merge_self_from(es, 0);
            assert(double_entries(es.subrange(0, 0)) + es.subrange(0, es.len() as int) =~= es);
        },
        Node::Arr(a) => {
        },
        _ => {
        },
    }
}

/// Merging a well-formed document with itself, with nested merging and array
/// extension both on, yields the document with every array that sits at a
/// key concatenated with itself: scalars are unchanged, arrays are doubled.
pub proof fn lemma_merge_self_doubles_arrays(d: Seq<(Seq<char>, Node)>)
    requires
        wf_entries(d),
    ensures
        merge_entries(d, d, true, true) == Ok::<_, Conflict>(double_entries(d)),
{
    lemma_merge_self_from(d, 0);
    assert(double_entries(d.subrange(0, 0)) + d.subrange(0, d.len() as int) =~= d);
}

} // verus!
