use vstd::prelude::*;
use crate::error::Error;
use crate::value::{ConfigValue, Node, node_of, entry_nodes_of, lemma_nodes_of_concat};

verus! {

broadcast use {
    crate::value::lemma_nodes_of_len,
    crate::value::lemma_nodes_of_index,
    crate::value::lemma_entry_nodes_of_len,
    crate::value::lemma_entry_nodes_of_index,
};

/// A merge conflict, at the level of the model: the key at which the two
/// documents disagree and the later document's value for it.
pub enum Conflict {
    Object { key: Seq<char>, value: Node },
    Array { key: Seq<char>, value: Node },
}

/// Position of the first entry of `t` whose key is `k`, if any.
pub open spec fn spec_find(t: Seq<(Seq<char>, Node)>, k: Seq<char>) -> Option<int>
    decreases t.len(),
{
    if t.len() == 0 {
        None
    } else if t[0].0 == k {
        Some(0)
    } else {
        match spec_find(t.subrange(1, t.len() as int), k) {
            Some(i) => Some(i + 1),
            None => None,
        }
    }
}

pub proof fn lemma_spec_find(t: Seq<(Seq<char>, Node)>, k: Seq<char>)
    ensures
        match spec_find(t, k) {
            Some(i) => 0 <= i < t.len() && t[i].0 == k && (forall|j: int|
                0 <= j < i ==> (#[trigger] t[j]).0 != k),
            None => forall|j: int| 0 <= j < t.len() ==> (#[trigger] t[j]).0 != k,
        },
    decreases t.len(),
{
    if t.len() > 0 && t[0].0 != k {
        let sub = t.subrange(1, t.len() as int);
        lemma_spec_find(sub, k);
        assert(forall|j: int| 1 <= j < t.len() ==> #[trigger] t[j] == sub[j - 1]);
    }
}

/// How a single key already present in the accumulator is merged with the
/// later document's value for it: an object recurses or is replaced as
/// `merge_nested` says, an array is extended or replaced as `extend_array`
/// says, and every other variant is replaced outright. A conflict arises
/// exactly when the policy demands structural treatment and the later value
/// does not have the required shape.
pub open spec fn merge_node(
    key: Seq<char>,
    cur: Node,
    src: Node,
    merge_nested: bool,
    extend_array: bool,
) -> Result<Node, Conflict>
    decreases src, 0int,
{
    match cur {
        Node::Obj(t) => {
            if !merge_nested {
                Ok(src)
            } else {
                match src {
                    Node::Obj(s) => match merge_entries(t, s, merge_nested, extend_array) {
                        Ok(m) => Ok(Node::Obj(m)),
                        Err(c) => Err(c),
                    },
                    _ => Err(Conflict::Object { key, value: src }),
                }
            }
        },
        Node::Arr(t) => {
            if !extend_array {
                Ok(src)
            } else {
                match src {
                    Node::Arr(s) => Ok(Node::Arr(t + s)),
                    _ => Err(Conflict::Array { key, value: src }),
                }
            }
        },
        _ => Ok(src),
    }
}

/// Folds the entries of `s` into `t`, left to right. A key absent from `t`
/// is appended; a key present in `t` is merged in place by `merge_node`.
/// The first conflict aborts the whole merge.
pub open spec fn merge_entries(
    t: Seq<(Seq<char>, Node)>,
    s: Seq<(Seq<char>, Node)>,
    merge_nested: bool,
    extend_array: bool,
) -> Result<Seq<(Seq<char>, Node)>, Conflict>
    decreases s, 1int,
{
    if s.len() == 0 {
        Ok(t)
    } else {
        let step = match spec_find(t, s[0].0) {
            None => Ok(t.push(s[0])),
            Some(i) => match merge_node(s[0].0, t[i].1, s[0].1, merge_nested, extend_array) {
                Ok(m) => Ok(t.update(i, (s[0].0, m))),
                Err(c) => Err(c),
            },
        };
        match step {
            Ok(t2) => merge_entries(t2, s.subrange(1, s.len() as int), merge_nested, extend_array),
            Err(c) => Err(c),
        }
    }
}

/// Position of the first entry of `t` whose key equals `k`, if any.
fn find_key(t: &Vec<(String, ConfigValue)>, k: &String) -> (r: Option<usize>)
    ensures
        spec_find(entry_nodes_of(t@), k@) == match r {
            Some(i) => Some(i as int),
            None => None::<int>,
        },
        r matches Some(i) ==> i < t@.len() && t@[i as int].0@ == k@,
{
    proof {
        lemma_spec_find(entry_nodes_of(t@), k@);
    }
    let mut i: usize = 0;
    while i < t.len()
        invariant
            i <= t@.len(),
            forall|j: int| 0 <= j < i ==> entry_nodes_of(t@)[j].0 != k@,
        decreases t@.len() - i,
    {
        if t[i].0 == *k {
            proof {
                assert(entry_nodes_of(t@)[i as int] == (
                    t@[i as int].0@,
                    node_of(t@[i as int].1),
                ));
                lemma_spec_find(entry_nodes_of(t@), k@);
            }
            return Some(i);
        }
        i = i + 1;
    }
    proof {
        lemma_spec_find(entry_nodes_of(t@), k@);
    }
    None
}

/// Merges the later document's value `src` into the value `cur` that the
/// accumulator already holds at key `key`, as `merge_node` says on the models.
fn merge_one(key: String, cur: ConfigValue, src: ConfigValue, merge_nested: bool, extend_array: bool) -> (r:
    Result<ConfigValue, Error>)
    ensures
        match r {
            Ok(m) => merge_node(key@, cur@, src@, merge_nested, extend_array) == Ok::<
                Node,
                Conflict,
            >(m@),
            Err(e) => {
                &&& error_conflict(e) matches Some(c)
                &&& merge_node(key@, cur@, src@, merge_nested, extend_array) == Err::<
                    Node,
                    Conflict,
                >(c)
            },
        },
    decreases src, 0int,
{
    match cur {
        ConfigValue::Obj(t) => {
            if !merge_nested {
                Ok(src)
            } else {
                match src {
                    ConfigValue::Obj(s) => match merge_objects(t, s, merge_nested, extend_array) {
                        Ok(m) => Ok(ConfigValue::Obj(m)),
                        Err(e) => Err(e),
                    },
                    other => Err(Error::ObjectFieldTypeMismatch { key, value: other }),
                }
            }
        },
        ConfigValue::Arr(t) => {
            if !extend_array {
                Ok(src)
            } else {
                match src {
                    ConfigValue::Arr(s) => {
                        let mut t = t;
                        let mut s = s;
                        proof {
                            lemma_nodes_of_concat(t@, s@);
                        }
                        t.append(&mut s);
                        Ok(ConfigValue::Arr(t))
                    },
                    other => Err(Error::ArrayFieldTypeMismatch { key, value: other }),
                }
            }
        },
        _ => Ok(src),
    }
}

/// Merges `source` into `target`: for each entry of `source`, in order, a key
/// absent from `target` is appended and a key present in `target` is merged
/// in place by the policy. The result is exactly `merge_entries` on the
/// models; the first conflict aborts the merge and is reported with its key
/// and the conflicting value.
pub fn merge_objects(
    target: Vec<(String, ConfigValue)>,
    source: Vec<(String, ConfigValue)>,
    merge_nested: bool,
    extend_array: bool,
) -> (r: Result<Vec<(String, ConfigValue)>, Error>)
    ensures
        match r {
            Ok(m) => merge_entries(
                entry_nodes_of(target@),
                entry_nodes_of(source@),
                merge_nested,
                extend_array,
            ) == Ok::<Seq<(Seq<char>, Node)>, Conflict>(entry_nodes_of(m@)),
            Err(e) => {
                &&& error_conflict(e) matches Some(c)
                &&& merge_entries(
                    entry_nodes_of(target@),
                    entry_nodes_of(source@),
                    merge_nested,
                    extend_array,
                ) == Err::<Seq<(Seq<char>, Node)>, Conflict>(c)
            },
        },
    decreases source@, 1int,
{
    let mut target = target;
    let mut source = source;
    if source.len() == 0 {
        return Ok(target);
    }
    let ghost t0 = target@;
    let ghost s0 = source@;
    let (k, v) = source.remove(0);
    proof {
        assert(decreases_to!(s0 => s0[0]));
        assert(decreases_to!(s0[0] => s0[0].1));
        assert(entry_nodes_of(s0)[0] == (k@, node_of(v)));
        assert(entry_nodes_of(source@) =~= entry_nodes_of(s0).subrange(
            1,
            entry_nodes_of(s0).len() as int,
        ));
    }
    match find_key(&target, &k) {
        None => {
            target.push((k, v));
            proof {
                assert(entry_nodes_of(target@) =~= entry_nodes_of(t0).push(
                    entry_nodes_of(s0)[0],
                ));
            }
        },
        Some(i) => {
            let (k0, cur) = target.remove(i);
            match merge_one(k, cur, v, merge_nested, extend_array) {
                Ok(m) => {
                    target.insert(i, (k0, m));
                    proof {
                        assert(entry_nodes_of(target@) =~= entry_nodes_of(t0).update(
                            i as int,
                            (entry_nodes_of(s0)[0].0, m@),
                        ));
                    }
                },
                Err(e) => {
                    return Err(e);
                },
            }
        },
    }
    merge_objects(target, source, merge_nested, extend_array)
}

/// The conflict that a given error value reports, if it reports one.
pub open spec fn error_conflict(e: Error) -> Option<Conflict> {
    match e {
        Error::ObjectFieldTypeMismatch { key, value } => Some(
            Conflict::Object { key: key@, value: value@ },
        ),
        Error::ArrayFieldTypeMismatch { key, value } => Some(
            Conflict::Array { key: key@, value: value@ },
        ),
        _ => None,
    }
}

} // verus!
