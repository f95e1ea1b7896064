use vstd::prelude::*;

verus! {

/// A generic configuration document node: the dynamically shaped tree that
/// both supported configuration formats parse into. A numeric leaf carries
/// its canonical decimal rendering, so the tree itself stays plain data.
/// An object is an ordered list of key/value entries with pairwise distinct
/// keys (see `wf_entries`).
#[derive(Debug, PartialEq, Eq)]
pub enum ConfigValue {
    Null,
    Bool(bool),
    Num(String),
    Str(String),
    Arr(Vec<ConfigValue>),
    Obj(Vec<(String, ConfigValue)>),
}

/// The mathematical model of a document node: the same tree over `Seq`.
pub enum Node {
    Null,
    Bool(bool),
    Num(Seq<char>),
    Str(Seq<char>),
    Arr(Seq<Node>),
    Obj(Seq<(Seq<char>, Node)>),
}

impl View for ConfigValue {
    type V = Node;

    open spec fn view(&self) -> Node {
        node_of(*self)
    }
}

/// The model of a single node.
pub open spec fn node_of(v: ConfigValue) -> Node
    decreases v, 1int,
{
    match v {
        ConfigValue::Null => Node::Null,
        ConfigValue::Bool(b) => Node::Bool(b),
        ConfigValue::Num(s) => Node::Num(s@),
        ConfigValue::Str(s) => Node::Str(s@),
        ConfigValue::Arr(a) => Node::Arr(nodes_of(a@)),
        ConfigValue::Obj(es) => Node::Obj(entry_nodes_of(es@)),
    }
}

/// The model of a list of nodes.
pub open spec fn nodes_of(a: Seq<ConfigValue>) -> Seq<Node>
    decreases a, 0int,
{
    if a.len() == 0 {
        Seq::empty()
    } else {
        seq![node_of(a[0])] + nodes_of(a.subrange(1, a.len() as int))
    }
}

/// The model of a list of object entries.
pub open spec fn entry_nodes_of(es: Seq<(String, ConfigValue)>) -> Seq<(Seq<char>, Node)>
    decreases es, 0int,
{
    if es.len() == 0 {
        Seq::empty()
    } else {
        seq![(es[0].0@, node_of(es[0].1))] + entry_nodes_of(es.subrange(1, es.len() as int))
    }
}


/// No two entries of an object share a key.
pub open spec fn uniq_keys(t: Seq<(Seq<char>, Node)>) -> bool {
    forall|i: int, j: int| 0 <= i < j < t.len() ==> t[i].0 != t[j].0
}

/// Well-formedness: every object anywhere in the tree has distinct keys.
pub open spec fn wf_node(n: Node) -> bool
    decreases n,
{
    match n {
        Node::Arr(a) => forall|i: int| 0 <= i < a.len() ==> wf_node(#[trigger] a[i]),
        Node::Obj(t) => uniq_keys(t) && forall|i: int| 0 <= i < t.len() ==> wf_node(#[trigger] t[i].1),
        _ => true,
    }
}

/// Well-formedness of a document given by its top-level entries.
pub open spec fn wf_entries(t: Seq<(Seq<char>, Node)>) -> bool {
    wf_node(Node::Obj(t))
}

pub broadcast proof fn lemma_nodes_of_len(a: Seq<ConfigValue>)
    ensures
        #[trigger] nodes_of(a).len() == a.len(),
    decreases a.len(),
{
    if a.len() > 0 {
        lemma_nodes_of_len(a.subrange(1, a.len() as int));
    }
}

pub broadcast proof fn lemma_nodes_of_index(a: Seq<ConfigValue>, i: int)
    requires
        0 <= i < a.len(),
    ensures
        nodes_of(a).len() == a.len(),
        #[trigger] nodes_of(a)[i] == node_of(a[i]),
    decreases a.len(),
{
    lemma_nodes_of_len(a);
    if i > 0 {
        lemma_nodes_of_index(a.subrange(1, a.len() as int), i - 1);
    }
}

pub proof fn lemma_nodes_of_concat(a: Seq<ConfigValue>, b: Seq<ConfigValue>)
    ensures
        nodes_of(a + b) == nodes_of(a) + nodes_of(b),
{
    broadcast use {lemma_nodes_of_len, lemma_nodes_of_index};

    assert(nodes_of(a + b) =~= nodes_of(a) + nodes_of(b)) by {
        assert(forall|i: int|
            0 <= i < a.len() + b.len() ==> (a + b)[i] == if i < a.len() {
                a[i]
            } else {
                b[i - a.len()]
            });
    }
}

pub broadcast proof fn lemma_entry_nodes_of_len(es: Seq<(String, ConfigValue)>)
    ensures
        #[trigger] entry_nodes_of(es).len() == es.len(),
    decreases es.len(),
{
    if es.len() > 0 {
        lemma_entry_nodes_of_len(es.subrange(1, es.len() as int));
    }
}

pub broadcast proof fn lemma_entry_nodes_of_index(es: Seq<(String, ConfigValue)>, i: int)
    requires
        0 <= i < es.len(),
    ensures
        entry_nodes_of(es).len() == es.len(),
        #[trigger] entry_nodes_of(es)[i] == (es[i].0@, node_of(es[i].1)),
    decreases es.len(),
{
    lemma_entry_nodes_of_len(es);
    if i > 0 {
        lemma_entry_nodes_of_index(es.subrange(1, es.len() as int), i - 1);
    }
}

} // verus!
