use vstd::prelude::*;
use vstd::multiset::Multiset;
use vstd::relations::{sorted_by, total_ordering};
use vstd::seq_lib::lemma_sorted_unique;
use vstd::string::StrSliceExecFns;
use vstd::string::StringExecFns;
use vstd::utf8::encode_utf8;

verus! {

broadcast use {
    vstd::seq_lib::group_to_multiset_ensures,
    vstd::multiset::group_multiset_axioms,
};

/// The views of a list of strings.
pub open spec fn strings_view(s: Seq<String>) -> Seq<Seq<char>> {
    Seq::new(s.len(), |i: int| s[i]@)
}

/// Lexicographic order on names, by code point; a prefix comes first.
pub open spec fn lex_le(a: Seq<char>, b: Seq<char>) -> bool
    decreases a.len(),
{
    if a.len() == 0 {
        true
    } else if b.len() == 0 {
        false
    } else if a[0] == b[0] {
        lex_le(a.drop_first(), b.drop_first())
    } else {
        a[0] < b[0]
    }
}

/// The order above as a relation, for the sorting vocabulary of vstd.
pub open spec fn name_leq() -> spec_fn(Seq<char>, Seq<char>) -> bool {
    |x: Seq<char>, y: Seq<char>| lex_le(x, y)
}

pub proof fn lemma_lex_le_refl(a: Seq<char>)
    ensures
        lex_le(a, a),
    decreases a.len(),
{
    if a.len() > 0 {
        lemma_lex_le_refl(a.drop_first());
    }
}

pub proof fn lemma_lex_le_total(a: Seq<char>, b: Seq<char>)
    ensures
        lex_le(a, b) || lex_le(b, a),
    decreases a.len(),
{
    if a.len() == 0 {
    } else if b.len() == 0 {
    } else if a[0] == b[0] {
        lemma_lex_le_total(a.drop_first(), b.drop_first());
    } else {
        assert(a[0] < b[0] || b[0] < a[0]);
    }
}

pub proof fn lemma_lex_le_antisym(a: Seq<char>, b: Seq<char>)
    requires
        lex_le(a, b),
        lex_le(b, a),
    ensures
        a == b,
    decreases a.len(),
{
    if a.len() > 0 && b.len() > 0 && a[0] == b[0] {
        lemma_lex_le_antisym(a.drop_first(), b.drop_first());
        assert(a.len() == b.len());
        assert forall|i: int| 0 <= i < a.len() implies a[i] == b[i] by {
            if i > 0 {
                assert(a[i] == a.drop_first()[i - 1]);
                assert(b[i] == b.drop_first()[i - 1]);
            }
        }
        assert(a =~= b);
    }
}

pub proof fn lemma_lex_le_trans(a: Seq<char>, b: Seq<char>, c: Seq<char>)
    requires
        lex_le(a, b),
        lex_le(b, c),
    ensures
        lex_le(a, c),
    decreases a.len(),
{
    if a.len() > 0 && b.len() > 0 && c.len() > 0 && a[0] == b[0] && b[0] == c[0] {
        lemma_lex_le_trans(a.drop_first(), b.drop_first(), c.drop_first());
    }
}

pub proof fn lemma_name_leq_total_ordering()
    ensures
        total_ordering(name_leq()),
{
    let leq = name_leq();
    assert forall|x: Seq<char>| #[trigger] leq(x, x) by {
        lemma_lex_le_refl(x);
    }
    assert forall|x: Seq<char>, y: Seq<char>| #[trigger] leq(x, y) && #[trigger] leq(y, x)
        implies x == y by {
        lemma_lex_le_antisym(x, y);
    }
    assert forall|x: Seq<char>, y: Seq<char>, z: Seq<char>|
        #[trigger] leq(x, y) && #[trigger] leq(y, z) implies leq(x, z) by {
        lemma_lex_le_trans(x, y, z);
    }
    assert forall|x: Seq<char>, y: Seq<char>| #[trigger] leq(x, y) || #[trigger] leq(y, x) by {
        lemma_lex_le_total(x, y);
    }
}

/// Whether `a` comes at or before `b` in the name order.
fn str_lex_le(a: &str, b: &str) -> (r: bool)
    ensures
        r == lex_le(a@, b@),
{
    let na = a.unicode_len();
    let nb = b.unicode_len();
    let mut i: usize = 0;
    proof {
        assert(a@.skip(0) =~= a@);
        assert(b@.skip(0) =~= b@);
    }
    while i < na && i < nb
        invariant
            i <= na,
            i <= nb,
            na == a@.len(),
            nb == b@.len(),
            lex_le(a@, b@) == lex_le(a@.skip(i as int), b@.skip(i as int)),
            lex_le(b@, a@) == lex_le(b@.skip(i as int), a@.skip(i as int)),
        decreases na - i,
    {
        let ca = a.get_char(i);
        let cb = b.get_char(i);
        if ca != cb {
            return ca < cb;
        }
        proof {
            assert(a@.skip(i as int).drop_first() =~= a@.skip(i + 1));
            assert(b@.skip(i as int).drop_first() =~= b@.skip(i + 1));
        }
        i = i + 1;
    }
    proof {
        if i == na {
            assert(a@.skip(i as int).len() == 0);
        } else {
            assert(b@.skip(i as int).len() == 0);
            assert(a@.skip(i as int).len() > 0);
        }
    }
    na <= nb
}

/// Whether `needle` occurs inside `hay` as a contiguous run of characters.
pub open spec fn contains_sub(hay: Seq<char>, needle: Seq<char>) -> bool {
    exists|i: int|
        0 <= i <= hay.len() - needle.len() && #[trigger] hay.subrange(i, i + needle.len())
            == needle
}

/// Whether `needle` occurs at position `i` of `hay`.
fn matches_at(hay: &str, needle: &str, i: usize) -> (r: bool)
    requires
        i + needle@.len() <= hay@.len(),
    ensures
        r == (hay@.subrange(i as int, i + needle@.len()) == needle@),
{
    let nh = hay.unicode_len();
    let nn = needle.unicode_len();
    let mut j: usize = 0;
    while j < nn
        invariant
            j <= nn,
            nh == hay@.len(),
            nn == needle@.len(),
            i + nn <= nh,
            forall|m: int| 0 <= m < j ==> hay@[i + m] == needle@[m],
        decreases nn - j,
    {
        if hay.get_char(i + j) != needle.get_char(j) {
            return false;
        }
        j = j + 1;
    }
    proof {
        assert(hay@.subrange(i as int, i + needle@.len()) =~= needle@);
    }
    true
}

/// Whether `needle` occurs anywhere inside `hay`.
fn contains_sub_exec(hay: &str, needle: &str) -> (r: bool)
    ensures
        r == contains_sub(hay@, needle@),
{
    let nh = hay.unicode_len();
    let nn = needle.unicode_len();
    if nn > nh {
        return false;
    }
    if nn == 0 {
        proof {
            assert(hay@.subrange(0, 0 + needle@.len() as int) =~= needle@);
        }
        return true;
    }
    let mut i: usize = 0;
    while i <= nh - nn
        invariant
            0 < nn <= nh,
            nh == hay@.len(),
            nn == needle@.len(),
            i <= nh - nn + 1,
            forall|m: int|
                0 <= m < i ==> #[trigger] hay@.subrange(m, m + needle@.len()) != needle@,
        decreases nh - i,
    {
        if matches_at(hay, needle, i) {
            proof {
                assert(0 <= i as int <= hay@.len() - needle@.len() && hay@.subrange(
                    i as int,
                    i as int + needle@.len(),
                ) == needle@);
            }
            return true;
        }
        i = i + 1;
    }
    false
}

/// Whether `pattern` is a valid wildcard and whether it then matches `name`;
/// both depend on the two byte strings alone.
pub uninterp spec fn wildcard_match(pattern: Seq<u8>, name: Seq<u8>) -> Option<bool>;

/// Relies on wildcard::Wildcard::new and wildcard::Wildcard::is_match: a
/// wildcard is compiled from its pattern bytes alone, matching a compiled
/// wildcard against input bytes is a pure function of the two, and a
/// syntactically invalid pattern compiles to nothing.
#[verifier::external_body]
fn wildcard_is_match(pattern: &[u8], name: &[u8]) -> (r: Option<bool>)
    ensures
        r == wildcard_match(pattern@, name@),
{
    match wildcard::Wildcard::new(pattern) {
        Ok(wc) => Some(wc.is_match(name)),
        Err(_) => None,
    }
}

/// How the file names of a directory are filtered. A name passes the keyword
/// filter when it contains every keyword, so an empty keyword list keeps
/// every name; it passes the wildcard filter when at least one valid pattern
/// matches it, so an empty or wholly invalid pattern list keeps none.
pub enum NameFilter {
    Unfiltered,
    Keywords(Vec<String>),
    Wildcards(Vec<String>),
}

/// Whether `name` contains every keyword of `ks`.
pub open spec fn all_keywords_in(ks: Seq<Seq<char>>, name: Seq<char>) -> bool {
    forall|i: int| 0 <= i < ks.len() ==> contains_sub(name, #[trigger] ks[i])
}

/// Whether at least one pattern of `ws` is valid and matches `name`.
pub open spec fn any_wildcard_matches(ws: Seq<Seq<char>>, name: Seq<char>) -> bool {
    exists|i: int|
        0 <= i < ws.len() && wildcard_match(encode_utf8(#[trigger] ws[i]), encode_utf8(name))
            == Some(true)
}

/// Whether a file name passes the filter.
pub open spec fn name_included(f: NameFilter, name: Seq<char>) -> bool {
    match f {
        NameFilter::Unfiltered => true,
        NameFilter::Keywords(ks) => all_keywords_in(strings_view(ks@), name),
        NameFilter::Wildcards(ws) => any_wildcard_matches(strings_view(ws@), name),
    }
}

/// Whether a file name passes the filter.
#[verifier::loop_isolation(false)]
fn name_included_exec(f: &NameFilter, name: &str) -> (r: bool)
    ensures
        r == name_included(*f, name@),
{
    match f {
        NameFilter::Unfiltered => true,
        NameFilter::Keywords(ks) => {
            let ghost kss = strings_view(ks@);
            let mut i: usize = 0;
            while i < ks.len()
                invariant
                    i <= ks@.len(),
                    kss == strings_view(ks@),
                    forall|j: int| 0 <= j < i ==> contains_sub(name@, #[trigger] kss[j]),
                decreases ks@.len() - i,
            {
                if !contains_sub_exec(name, ks[i].as_str()) {
                    proof {
                        assert(kss[i as int] == ks@[i as int]@);
                        assert(!all_keywords_in(kss, name@));
                        assert(*f matches NameFilter::Keywords(w) && strings_view(w@) == kss);
                    }
                    return false;
                }
                proof {
                    assert(kss[i as int] == ks@[i as int]@);
                }
                i = i + 1;
            }
            proof {
                assert(all_keywords_in(kss, name@));
                assert(*f matches NameFilter::Keywords(w) && strings_view(w@) == kss);
            }
            true
        },
        NameFilter::Wildcards(ws) => {
            let ghost wss = strings_view(ws@);
            let mut i: usize = 0;
            while i < ws.len()
                invariant
                    i <= ws@.len(),
                    wss == strings_view(ws@),
                    forall|j: int|
                        0 <= j < i ==> wildcard_match(encode_utf8(#[trigger] wss[j]), encode_utf8(name@))
                            != Some(true),
                decreases ws@.len() - i,
            {
                let m = wildcard_is_match(ws[i].as_str().as_bytes(), name.as_bytes());
                proof {
                    assert(wss[i as int] == ws@[i as int]@);
                    assert(m == wildcard_match(encode_utf8(wss[i as int]), encode_utf8(name@)));
                }
                match m {
                    Some(true) => {
                        proof {
                            assert(any_wildcard_matches(wss, name@));
                            assert(*f matches NameFilter::Wildcards(w) && strings_view(w@) == wss);
                        }
                        return true;
                    },
                    _ => {},
                }
                i = i + 1;
            }
            proof {
                assert(!any_wildcard_matches(wss, name@));
                assert(*f matches NameFilter::Wildcards(w) && strings_view(w@) == wss);
            }
            false
        },
    }
}


/// Position of a least name of `v` in the name order.
#[verifier::loop_isolation(false)]
fn min_index(v: &Vec<String>) -> (r: usize)
    requires
        v@.len() > 0,
    ensures
        r < v@.len(),
        forall|j: int| 0 <= j < v@.len() ==> lex_le(v@[r as int]@, (#[trigger] v@[j])@),
{
    let mut mi: usize = 0;
    let mut i: usize = 1;
    proof {
        lemma_lex_le_refl(v@[0]@);
    }
    while i < v.len()
        invariant
            mi < i <= v@.len(),
            forall|j: int| 0 <= j < i ==> lex_le(v@[mi as int]@, (#[trigger] v@[j])@),
        decreases v@.len() - i,
    {
        if str_lex_le(&v[i], &v[mi]) {
            proof {
                assert forall|j: int| 0 <= j <= i implies lex_le(
                    v@[i as int]@,
                    (#[trigger] v@[j])@,
                ) by {
                    if j < i {
                        lemma_lex_le_trans(v@[i as int]@, v@[mi as int]@, v@[j]@);
                    } else {
                        lemma_lex_le_refl(v@[i as int]@);
                    }
                }
            }
            mi = i;
        } else {
            proof {
                lemma_lex_le_total(v@[i as int]@, v@[mi as int]@);
            }
        }
        i = i + 1;
    }
    mi
}

/// Sorts names into the name order; the result holds the same names.
#[verifier::loop_isolation(false)]
fn sort_names(names: Vec<String>) -> (r: Vec<String>)
    ensures
        sorted_by(strings_view(r@), name_leq()),
        strings_view(r@).to_multiset() == strings_view(names@).to_multiset(),
{
    let mut rest = names;
    let mut out: Vec<String> = Vec::new();
    proof {
        assert(strings_view(out@) =~= Seq::<Seq<char>>::empty());
        assert(strings_view(out@).to_multiset().add(strings_view(rest@).to_multiset())
            =~= strings_view(rest@).to_multiset());
    }
    while rest.len() > 0
        invariant
            strings_view(out@).to_multiset().add(strings_view(rest@).to_multiset())
                == strings_view(names@).to_multiset(),
            sorted_by(strings_view(out@), name_leq()),
            forall|x: int, y: int|
                0 <= x < out@.len() && 0 <= y < rest@.len() ==> lex_le(
                    (#[trigger] out@[x])@,
                    (#[trigger] rest@[y])@,
                ),
        decreases rest@.len(),
    {
        let mi = min_index(&rest);
        let ghost old_out = out@;
        let ghost old_rest = rest@;
        let x = rest.remove(mi);
        out.push(x);
        proof {
            let ghost xv = old_rest[mi as int]@;
            assert(strings_view(out@) =~= strings_view(old_out).push(xv));
            assert(strings_view(rest@) =~= strings_view(old_rest).remove(mi as int));
            assert(strings_view(old_rest)[mi as int] == xv);
            assert(strings_view(out@).to_multiset()
                =~= strings_view(old_out).to_multiset().insert(xv));
            assert(strings_view(rest@).to_multiset()
                =~= strings_view(old_rest).to_multiset().remove(xv));
            assert(strings_view(old_rest).to_multiset().count(xv) > 0);
            assert(strings_view(out@).to_multiset().add(strings_view(rest@).to_multiset())
                =~= strings_view(old_out).to_multiset().add(strings_view(old_rest).to_multiset()));
            assert(sorted_by(strings_view(out@), name_leq()));
        }
    }
    proof {
        assert(strings_view(rest@) =~= Seq::<Seq<char>>::empty());
        assert(strings_view(out@).to_multiset().add(strings_view(rest@).to_multiset())
            =~= strings_view(out@).to_multiset());
    }
    out
}

/// The filter of a directory listing, as a predicate on a name's characters.
pub open spec fn filter_pred(f: NameFilter) -> spec_fn(Seq<char>) -> bool {
    |n: Seq<char>| name_included(f, n)
}

/// Keeps the names that pass the filter, in their given order.
#[verifier::loop_isolation(false)]
fn filter_names(names: &Vec<String>, f: &NameFilter) -> (r: Vec<String>)
    ensures
        strings_view(r@) == strings_view(names@).filter(filter_pred(*f)),
{
    let ghost nv = strings_view(names@);
    let mut out: Vec<String> = Vec::new();
    let mut i: usize = 0;
    proof {
        reveal(Seq::filter);
        assert(strings_view(out@) =~= nv.subrange(0, 0).filter(filter_pred(*f)));
    }
    while i < names.len()
        invariant
            i <= names@.len(),
            strings_view(out@) == nv.subrange(0, i as int).filter(filter_pred(*f)),
        decreases names@.len() - i,
    {
        let ghost old_out = out@;
        let included = name_included_exec(f, names[i].as_str());
        if included {
            out.push(names[i].clone());
        }
        proof {
            reveal(Seq::filter);
            let pre = nv.subrange(0, i as int);
            let cur = nv.subrange(0, i + 1);
            assert(cur.drop_last() =~= pre);
            assert(cur.last() == names@[i as int]@);
            assert(filter_pred(*f)(names@[i as int]@) == included);
            assert(cur.filter(filter_pred(*f)) == if filter_pred(*f)(cur.last()) {
                pre.filter(filter_pred(*f)).push(cur.last())
            } else {
                pre.filter(filter_pred(*f))
            });
            if included {
                assert(strings_view(out@) =~= strings_view(old_out).push(names@[i as int]@));
            }
            assert(strings_view(out@) =~= cur.filter(filter_pred(*f)));
        }
        i = i + 1;
    }
    proof {
        assert(nv.subrange(0, names@.len() as int) =~= nv);
    }
    out
}

/// The resolution of one directory listing: the names that pass the filter,
/// in the name order.
pub open spec fn dir_resolution(names: Seq<Seq<char>>, f: NameFilter) -> Seq<Seq<char>> {
    names.filter(filter_pred(f)).sort_by(name_leq())
}

/// A sequence's filtered multiset is its multiset filtered.
pub proof fn lemma_filter_to_multiset(s: Seq<Seq<char>>, pred: spec_fn(Seq<char>) -> bool)
    ensures
        s.filter(pred).to_multiset() == s.to_multiset().filter(pred),
    decreases s.len(),
{
    reveal(Seq::filter);
    if s.len() == 0 {
        assert(s.to_multiset() =~= Multiset::<Seq<char>>::empty());
        assert(s.filter(pred) == s);
        assert(s.filter(pred).to_multiset() =~= s.to_multiset().filter(pred));
    } else {
        let d = s.drop_last();
        let x = s.last();
        lemma_filter_to_multiset(d, pred);
        assert(s =~= d.push(x));
        assert(d.push(x).to_multiset() =~= d.to_multiset().insert(x));
        assert(s.to_multiset() == d.to_multiset().insert(x));
        if pred(x) {
            assert(s.filter(pred) == d.filter(pred).push(x));
            assert(d.filter(pred).push(x).to_multiset() =~= d.filter(pred).to_multiset().insert(x));
            assert(d.to_multiset().insert(x).filter(pred)
                =~= d.to_multiset().filter(pred).insert(x));
        } else {
            assert(s.filter(pred) == d.filter(pred));
            assert(d.to_multiset().insert(x).filter(pred) =~= d.to_multiset().filter(pred));
        }
    }
}

/// Two listings of one directory, however the directory was walked, resolve
/// to the same ordered list of names: the resolution depends only on which
/// names are present, not on the order they were seen in.
pub proof fn lemma_dir_resolution_deterministic(
    a: Seq<Seq<char>>,
    b: Seq<Seq<char>>,
    f: NameFilter,
)
    requires
        a.to_multiset() == b.to_multiset(),
    ensures
        dir_resolution(a, f) == dir_resolution(b, f),
{
    let pred = filter_pred(f);
    let leq = name_leq();
    lemma_name_leq_total_ordering();
    lemma_filter_to_multiset(a, pred);
    lemma_filter_to_multiset(b, pred);
    a.filter(pred).lemma_sort_by_ensures(leq);
    b.filter(pred).lemma_sort_by_ensures(leq);
    lemma_sorted_unique(a.filter(pred).sort_by(leq), b.filter(pred).sort_by(leq), leq);
    assert(dir_resolution(a, f) =~= dir_resolution(b, f));
}

/// Appends a file name to a directory path.
fn join_path(dir: &String, name: &String) -> (r: String)
    ensures
        r@ == dir@ + "/"@ + name@,
{
    let mut s = dir.clone();
    s.append("/");
    s.append(name.as_str());
    s
}

/// One input location, as the host's directory walk saw it: either a plain
/// file, or a directory with the names of the plain files directly inside it.
pub enum PathListing {
    File(String),
    Dir { path: String, names: Vec<String> },
}

/// The paths of the given names inside the directory at `dir`.
pub open spec fn joined(dir: Seq<char>, names: Seq<Seq<char>>) -> Seq<Seq<char>> {
    Seq::new(names.len(), |i: int| dir + "/"@ + names[i])
}

/// The ordered paths that one location contributes: a file passes through
/// unchanged, and a directory contributes its filtered names in the name
/// order, each joined to the directory's path.
pub open spec fn location_resolution(l: PathListing, f: NameFilter) -> Seq<Seq<char>> {
    match l {
        PathListing::File(p) => seq![p@],
        PathListing::Dir { path, names } => joined(path@, dir_resolution(strings_view(names@), f)),
    }
}

/// The ordered paths that a list of locations contributes: each location's
/// contribution in the order the locations were given.
pub open spec fn locations_resolution(ls: Seq<PathListing>, f: NameFilter) -> Seq<Seq<char>>
    decreases ls.len(),
{
    if ls.len() == 0 {
        Seq::empty()
    } else {
        locations_resolution(ls.drop_last(), f) + location_resolution(ls.last(), f)
    }
}

/// Expands the input locations into the ordered list of configuration file
/// paths: a file location passes through unchanged; a directory location is
/// expanded to the files directly inside it that pass the filter, sorted by
/// name; contributions keep the order the locations were given in.
#[verifier::loop_isolation(false)]
pub fn resolve_config_paths(locations: &Vec<PathListing>, filter: &NameFilter) -> (r: Vec<String>)
    ensures
        strings_view(r@) == locations_resolution(locations@, *filter),
{
    let mut out: Vec<String> = Vec::new();
    let mut i: usize = 0;
    proof {
        assert(strings_view(out@) =~= locations_resolution(locations@.subrange(0, 0), *filter));
    }
    while i < locations.len()
        invariant
            i <= locations@.len(),
            strings_view(out@) == locations_resolution(
                locations@.subrange(0, i as int),
                *filter,
            ),
        decreases locations@.len() - i,
    {
        let ghost old_out = out@;
        let ghost pre = locations@.subrange(0, i as int);
        let ghost cur = locations@.subrange(0, i + 1);
        proof {
            assert(cur.drop_last() =~= pre);
            assert(cur.last() == locations@[i as int]);
        }
        match &locations[i] {
            PathListing::File(p) => {
                out.push(p.clone());
                proof {
                    assert(locations@[i as int] matches PathListing::File(q) && q@ == p@);
                    assert(strings_view(out@) =~= strings_view(old_out) + seq![p@]);
                }
            },
            PathListing::Dir { path, names } => {
                proof {
                    assert(locations@[i as int] matches PathListing::Dir { path: q, names: ns }
                        && q@ == path@ && ns@ == names@);
                }
                let kept = filter_names(names, filter);
                let sorted = sort_names(kept);
                let ghost ds = dir_resolution(strings_view(names@), *filter);
                proof {
                    lemma_name_leq_total_ordering();
                    strings_view(names@).filter(filter_pred(*filter)).lemma_sort_by_ensures(
                        name_leq(),
                    );
                    lemma_sorted_unique(strings_view(sorted@), ds, name_leq());
                }
                let mut j: usize = 0;
                while j < sorted.len()
                    invariant
                        j <= sorted@.len(),
                        strings_view(sorted@) == ds,
                        strings_view(out@) == locations_resolution(pre, *filter) + joined(
                            path@,
                            ds,
                        ).subrange(0, j as int),
                    decreases sorted@.len() - j,
                {
                    let ghost inner_old = out@;
                    let joined_path = join_path(path, &sorted[j]);
                    out.push(joined_path);
                    proof {
                        assert(joined(path@, ds)[j as int] == path@ + "/"@ + ds[j as int]);
                        assert(strings_view(out@) =~= strings_view(inner_old).push(
                            path@ + "/"@ + sorted@[j as int]@,
                        ));
                        assert(joined(path@, ds).subrange(0, j + 1) =~= joined(
                            path@,
                            ds,
                        ).subrange(0, j as int).push(joined(path@, ds)[j as int]));
                        assert(strings_view(out@) =~= locations_resolution(pre, *filter) + joined(
                            path@,
                            ds,
                        ).subrange(0, j + 1));
                    }
                    j = j + 1;
                }
                proof {
                    assert(joined(path@, ds).subrange(0, joined(path@, ds).len() as int) =~= joined(
                        path@,
                        ds,
                    ));
                }
            },
        }
        proof {
            assert(strings_view(out@) =~= locations_resolution(cur, *filter));
        }
        i = i + 1;
    }
    proof {
        assert(locations@.subrange(0, locations@.len() as int) =~= locations@);
    }
    out
}

} // verus!
