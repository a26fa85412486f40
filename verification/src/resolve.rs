//! Resolution of a raw alias map: every token of a value that names
//! another alias is substituted by that alias's own full expansion, with
//! cycle safety — a reference whose expansion would run into the active
//! resolution path stays as the literal alias name.

use vstd::prelude::*;

use crate::alias_map::AliasMap;

verus! {

broadcast use {vstd::set::group_set_axioms, vstd::seq_lib::seq_to_set_is_finite};

use crate::text::{
    is_alnum_char,
    is_upper_char,
    is_alnum,
    contains_string,
    join_sp,
    lemma_join_sp_push,
    split_ws,
    split_whitespace_tokens,
    views_of,
};

/// Whether a token has the shape of an alias reference: non-empty, first
/// character uppercase, all characters alphanumeric.
pub open spec fn is_alias_ref(t: Seq<char>) -> bool {
    t.len() > 0 && is_upper_char(t[0]) && forall|i: int| 0 <= i < t.len() ==> is_alnum_char(t[i])
}

/// Executable check for [`is_alias_ref`].
pub fn is_alias_token(t: &str) -> (r: bool)
    ensures
        r == is_alias_ref(t@),
{
    let n = t.unicode_len();
    if n == 0 {
        return false;
    }
    let first = t.get_char(0) as u32;
    if !(65 <= first && first <= 90) {
        return false;
    }
    let mut i: usize = 0;
    while i < n
        invariant
            0 <= i <= n,
            n == t@.len(),
            forall|j: int| 0 <= j < i ==> is_alnum_char(t@[j]),
        decreases n - i,
    {
        if !is_alnum(t.get_char(i)) {
            return false;
        }
        i = i + 1;
    }
    true
}

/// Whether resolving `name` runs into no cycle: none of the alias
/// references reachable from its value, along paths of aliases not yet
/// visited, leads back to the visiting set `v` or repeats an alias.
pub open spec fn expands_cleanly(
    m: Map<Seq<char>, Seq<char>>,
    v: Set<Seq<char>>,
    name: Seq<char>,
) -> bool
    decreases m.dom().difference(v).len(), 0int,
    when m.dom().finite() && v.finite() && m.dom().contains(name) && !v.contains(name)
    via expands_cleanly_decreases
{
    toks_clean(m, v.insert(name), split_ws(m[name]))
}

/// Whether every alias reference among `toks` avoids the visiting set and
/// itself expands cleanly.
pub open spec fn toks_clean(
    m: Map<Seq<char>, Seq<char>>,
    v: Set<Seq<char>>,
    toks: Seq<Seq<char>>,
) -> bool
    decreases m.dom().difference(v).len(), toks.len() + 1,
    when m.dom().finite() && v.finite()
{
    if toks.len() == 0 {
        true
    } else {
        let t = toks[0];
        (if is_alias_ref(t) && m.dom().contains(t) {
            !v.contains(t) && expands_cleanly(m, v, t)
        } else {
            true
        }) && toks_clean(m, v, toks.drop_first())
    }
}

#[via_fn]
proof fn expands_cleanly_decreases(m: Map<Seq<char>, Seq<char>>, v: Set<Seq<char>>, name: Seq<char>) {
    lemma_visit_measure(m.dom(), v, name);
}

/// The set of a sequence extended by one element.
pub proof fn lemma_push_to_set(ss: Seq<Seq<char>>, x: Seq<char>)
    ensures
        ss.push(x).to_set() =~= ss.to_set().insert(x),
{
    assert forall|y: Seq<char>| #[trigger] ss.push(x).to_set().contains(y) implies ss
        .to_set().insert(x).contains(y) by {
        let i = choose|i: int| 0 <= i < ss.push(x).len() && ss.push(x)[i] == y;
        if i < ss.len() {
            assert(ss[i] == y);
            assert(ss.contains(y));
        }
    }
    assert forall|y: Seq<char>| #[trigger] ss.to_set().insert(x).contains(y) implies ss.push(
        x,
    ).to_set().contains(y) by {
        if y == x {
            assert(ss.push(x)[ss.len() as int] == y);
            assert(ss.push(x).contains(y));
        } else {
            let i = choose|i: int| 0 <= i < ss.len() && ss[i] == y;
            assert(ss.push(x)[i] == y);
            assert(ss.push(x).contains(y));
        }
    }
}

/// Inserting an unvisited alias into the visiting set shrinks the measure
/// of aliases still open to visits.
pub proof fn lemma_visit_measure(dom: Set<Seq<char>>, v: Set<Seq<char>>, name: Seq<char>)
    requires
        dom.finite(),
        dom.contains(name),
        !v.contains(name),
    ensures
        dom.difference(v.insert(name)).len() < dom.difference(v).len(),
{
    assert(dom.difference(v.insert(name)) =~= dom.difference(v).remove(name));
    assert(dom.difference(v).contains(name));
}

/// One token resolved against the visiting set: an alias reference that
/// expands cleanly is replaced by the joined resolution of its own value;
/// any other token stays literal.
pub open spec fn resolve_tok(m: Map<Seq<char>, Seq<char>>, v: Set<Seq<char>>, t: Seq<char>) -> Seq<
    char,
>
    decreases m.dom().difference(v).len(), 0int,
    when m.dom().finite() && v.finite()
    via resolve_tok_decreases
{
    if is_alias_ref(t) && m.dom().contains(t) && !v.contains(t) && expands_cleanly(m, v, t) {
        join_sp(resolve_toks(m, v.insert(t), split_ws(m[t])))
    } else {
        t
    }
}

/// Every token resolved, in order.
pub open spec fn resolve_toks(
    m: Map<Seq<char>, Seq<char>>,
    v: Set<Seq<char>>,
    toks: Seq<Seq<char>>,
) -> Seq<Seq<char>>
    decreases m.dom().difference(v).len(), toks.len() + 1,
    when m.dom().finite() && v.finite()
{
    if toks.len() == 0 {
        Seq::empty()
    } else {
        seq![resolve_tok(m, v, toks[0])] + resolve_toks(m, v, toks.drop_first())
    }
}

#[via_fn]
proof fn resolve_tok_decreases(m: Map<Seq<char>, Seq<char>>, v: Set<Seq<char>>, t: Seq<char>) {
    if is_alias_ref(t) && m.dom().contains(t) && !v.contains(t) && expands_cleanly(m, v, t) {
        lemma_visit_measure(m.dom(), v, t);
    }
}

/// The fully resolved value of alias `name`.
pub open spec fn resolve_value(m: Map<Seq<char>, Seq<char>>, name: Seq<char>) -> Seq<char> {
    join_sp(resolve_toks(m, Set::empty().insert(name), split_ws(m[name])))
}

/// The resolved alias map: same alias names, each value fully resolved.
/// The result depends on the map alone, not on any order of its entries.
pub open spec fn resolve_map_spec(m: Map<Seq<char>, Seq<char>>) -> Map<Seq<char>, Seq<char>> {
    Map::new(|k: Seq<char>| m.dom().contains(k), |k: Seq<char>| resolve_value(m, k))
}

/// The resolved tokens, element by element.
pub proof fn lemma_resolve_toks_index(
    m: Map<Seq<char>, Seq<char>>,
    v: Set<Seq<char>>,
    toks: Seq<Seq<char>>,
)
    requires
        m.dom().finite(),
        v.finite(),
    ensures
        resolve_toks(m, v, toks).len() == toks.len(),
        forall|j: int| 0 <= j < toks.len() ==> resolve_toks(m, v, toks)[j] == resolve_tok(
            m,
            v,
            toks[j],
        ),
    decreases toks.len(),
{
    if toks.len() > 0 {
        lemma_resolve_toks_index(m, v, toks.drop_first());
    }
}

/// Tokens that are no alias references of the map resolve to themselves.
pub proof fn lemma_resolve_toks_inert(
    m: Map<Seq<char>, Seq<char>>,
    v: Set<Seq<char>>,
    toks: Seq<Seq<char>>,
)
    requires
        m.dom().finite(),
        v.finite(),
        forall|i: int| 0 <= i < toks.len() ==> !(is_alias_ref(toks[i]) && m.dom().contains(
            toks[i],
        )),
    ensures
        resolve_toks(m, v, toks) =~= toks,
    decreases toks.len(),
{
    if toks.len() > 0 {
        assert(!(is_alias_ref(toks[0]) && m.dom().contains(toks[0])));
        assert(resolve_tok(m, v, toks[0]) == toks[0]);
        assert(forall|q: int| 0 <= q < toks.len() - 1 ==> toks.drop_first()[q] == toks[q + 1]);
        lemma_resolve_toks_inert(m, v, toks.drop_first());
        assert(seq![toks[0]] + toks.drop_first() =~= toks);
    }
}

/// A fully resolved alias map: every value is already in canonical,
/// single-space-joined form and none of its tokens names an alias of the
/// map.
pub open spec fn fully_resolved(m: Map<Seq<char>, Seq<char>>) -> bool {
    &&& m.dom().finite()
    &&& forall|k: Seq<char>| #[trigger]
        m.dom().contains(k) ==> m[k] == join_sp(split_ws(m[k]))
    &&& forall|k: Seq<char>, i: int|
        m.dom().contains(k) && 0 <= i < split_ws(m[k]).len() ==> !(is_alias_ref(
            #[trigger] split_ws(m[k])[i],
        ) && m.dom().contains(split_ws(m[k])[i]))
}

/// Resolution is a fixpoint: resolving an already fully resolved alias
/// map changes nothing.
pub proof fn lemma_resolve_fixpoint(m: Map<Seq<char>, Seq<char>>)
    requires
        fully_resolved(m),
    ensures
        resolve_map_spec(m) =~= m,
{
    assert forall|k: Seq<char>| #[trigger] m.dom().contains(k) implies resolve_value(m, k) == m[k] by {
        lemma_resolve_toks_inert(m, Set::empty().insert(k), split_ws(m[k]));
        assert(join_sp(resolve_toks(m, Set::empty().insert(k), split_ws(m[k]))) == join_sp(
            split_ws(m[k]),
        ));
    }
}

/// Whether resolving `name` (already on the path held by `visiting`) runs
/// into no cycle.
fn check_expands(m: &AliasMap, visiting: &mut Vec<String>, name: &str) -> (r: bool)
    requires
        m@.dom().contains(name@),
        !views_of(old(visiting)@).to_set().contains(name@),
    ensures
        final(visiting)@ == old(visiting)@,
        r == expands_cleanly(m@, views_of(old(visiting)@).to_set(), name@),
    decreases m@.dom().difference(views_of(old(visiting)@).to_set()).len(),
{
    proof {
        m.lemma_view_finite();
    }
    let ghost v0 = views_of(visiting@).to_set();
    let value = match m.get(name) {
        Some(value) => value.clone(),
        None => String::new(),
    };
    let toks = split_whitespace_tokens(value.as_str());
    visiting.push(name.to_owned());
    let ghost v1 = views_of(visiting@).to_set();
    proof {
        assert(views_of(visiting@) =~= views_of(old(visiting)@).push(name@));
        lemma_push_to_set(views_of(old(visiting)@), name@);
        assert(v1 =~= v0.insert(name@));
        lemma_visit_measure(m@.dom(), v0, name@);
        assert(views_of(toks@).skip(0) =~= views_of(toks@));
    }
    let n = toks.len();
    let mut j: usize = 0;
    while j < n
        invariant
            0 <= j <= n,
            n == toks@.len(),
            m@.dom().finite(),
            v0.finite(),
            v1.finite(),
            m@.dom().contains(name@),
            !v0.contains(name@),
            v0 == views_of(old(visiting)@).to_set(),
            v1 =~= v0.insert(name@),
            m@.dom().difference(v1).len() < m@.dom().difference(v0).len(),
            visiting@.len() == old(visiting)@.len() + 1,
            visiting@.drop_last() == old(visiting)@,
            views_of(visiting@) =~= views_of(old(visiting)@).push(name@),
            views_of(visiting@).to_set() == v1,
            views_of(toks@) =~= split_ws(m@[name@]),
            toks_clean(m@, v1, views_of(toks@).skip(j as int)) == toks_clean(
                m@,
                v1,
                views_of(toks@),
            ),
        decreases n - j,
    {
        let t = toks[j].as_str();
        let ghost tv = views_of(toks@)[j as int];
        proof {
            assert(tv == toks@[j as int]@);
            assert(views_of(toks@).skip(j as int).drop_first() =~= views_of(toks@).skip(j + 1));
            assert(views_of(toks@).skip(j as int)[0] == tv);
        }
        if is_alias_token(t) {
            let in_map = m.contains_key(t);
            if in_map {
                if contains_string(visiting, t) {
                    proof {
                        assert(v1.contains(tv));
                        assert(!toks_clean(m@, v1, views_of(toks@).skip(j as int)));
                        assert(!expands_cleanly(m@, v0, name@));
                    }
                    let _ = visiting.pop();
                    proof {
                        assert(visiting@ =~= old(visiting)@);
                    }
                    return false;
                }
                let sub = check_expands(m, visiting, t);
                if !sub {
                    proof {
                        assert(!v1.contains(tv));
                        assert(!expands_cleanly(m@, v1, tv));
                        assert(!toks_clean(m@, v1, views_of(toks@).skip(j as int)));
                        assert(!expands_cleanly(m@, v0, name@));
                    }
                    let _ = visiting.pop();
                    proof {
                        assert(visiting@ =~= old(visiting)@);
                    }
                    return false;
                }
            }
        }
        j = j + 1;
    }
    proof {
        assert(views_of(toks@).skip(n as int) =~= Seq::<Seq<char>>::empty());
        assert(toks_clean(m@, v1, views_of(toks@)));
        assert(expands_cleanly(m@, v0, name@));
    }
    let _ = visiting.pop();
    proof {
        assert(visiting@ =~= old(visiting)@);
    }
    true
}

/// The joined resolution of the whitespace-separated tokens of `value`,
/// against the path held by `visiting`.
fn resolve_value_str(m: &AliasMap, visiting: &mut Vec<String>, value: &str) -> (r: String)
    ensures
        final(visiting)@ == old(visiting)@,
        r@ == join_sp(resolve_toks(m@, views_of(old(visiting)@).to_set(), split_ws(value@))),
    decreases m@.dom().difference(views_of(old(visiting)@).to_set()).len(), 1int,
{
    proof {
        m.lemma_view_finite();
        reveal_strlit(" ");
        assert(" "@ =~= seq![' ']);
    }
    let ghost v = views_of(visiting@).to_set();
    let toks = split_whitespace_tokens(value);
    let ghost parts = resolve_toks(m@, v, split_ws(value@));
    proof {
        lemma_resolve_toks_index(m@, v, split_ws(value@));
    }
    let mut r = String::new();
    let mut j: usize = 0;
    let n = toks.len();
    while j < n
        invariant
            0 <= j <= n,
            n == toks@.len(),
            m@.dom().finite(),
            v.finite(),
            v == views_of(visiting@).to_set(),
            visiting@ == old(visiting)@,
            views_of(toks@) =~= split_ws(value@),
            parts == resolve_toks(m@, v, split_ws(value@)),
            parts.len() == n,
            forall|q: int| 0 <= q < n ==> parts[q] == resolve_tok(m@, v, views_of(toks@)[q]),
            r@ == join_sp(parts.take(j as int)),
        decreases n - j,
    {
        proof {
            reveal_strlit(" ");
            assert(" "@ =~= seq![' ']);
        }
        let piece = resolve_token(m, visiting, toks[j].as_str());
        proof {
            assert(views_of(toks@)[j as int] == toks@[j as int]@);
            assert(piece@ == parts[j as int]);
            assert(parts.take(j + 1) =~= parts.take(j as int).push(piece@));
            lemma_join_sp_push(parts.take(j as int), piece@);
        }
        if j > 0 {
            r.append(" ");
        }
        r.append(piece.as_str());
        proof {
            if j == 0 {
                assert(Seq::<char>::empty() + piece@ =~= piece@);
            }
        }
        j = j + 1;
    }
    proof {
        assert(parts.take(n as int) =~= parts);
    }
    r
}

/// One token resolved against the path held by `visiting`.
fn resolve_token(m: &AliasMap, visiting: &mut Vec<String>, t: &str) -> (r: String)
    ensures
        final(visiting)@ == old(visiting)@,
        r@ == resolve_tok(m@, views_of(old(visiting)@).to_set(), t@),
    decreases m@.dom().difference(views_of(old(visiting)@).to_set()).len(), 0int,
{
    proof {
        m.lemma_view_finite();
    }
    let ghost v = views_of(visiting@).to_set();
    if is_alias_token(t) {
        let value = match m.get(t) {
            Some(value) => Some(value.clone()),
            None => None,
        };
        match value {
            Some(value) => {
                if !contains_string(visiting, t) {
                    let clean = check_expands(m, visiting, t);
                    if clean {
                        visiting.push(t.to_owned());
                        proof {
                            assert(views_of(visiting@) =~= views_of(old(visiting)@).push(t@));
                            lemma_push_to_set(views_of(old(visiting)@), t@);
                            assert(views_of(visiting@).to_set() =~= v.insert(t@));
                            lemma_visit_measure(m@.dom(), v, t@);
                        }
                        let r = resolve_value_str(m, visiting, value.as_str());
                        let _ = visiting.pop();
                        proof {
                            assert(visiting@ =~= old(visiting)@);
                        }
                        return r;
                    }
                }
            },
            None => {},
        }
    }
    t.to_owned()
}

/// Resolves a raw alias map: every alias keeps its name, and every token
/// of its value that names another alias is replaced by that alias's own
/// full expansion.  A reference whose expansion would run back into the
/// aliases currently being resolved stays as the literal alias name, so
/// circular definitions terminate with a defined result.  The result
/// depends only on the map, not on the order of its entries.
pub fn resolve_aliases(raw: &AliasMap) -> (r: AliasMap)
    ensures
        r@ =~= resolve_map_spec(raw@),
{
    proof {
        raw.lemma_view_finite();
        raw.lemma_view();
        crate::alias_map::lemma_map_of_dom(raw.kv());
    }
    let n = raw.num_entries();
    let mut out = AliasMap::new();
    let mut i: usize = 0;
    while i < n
        invariant
            0 <= i <= n,
            n == raw.kv().len(),
            raw@.dom().finite(),
            raw@ == crate::alias_map::map_of(raw.kv()),
            forall|k: Seq<char>|
                #[trigger] raw@.dom().contains(k) <==> exists|j: int|
                    0 <= j < raw.kv().len() && raw.kv()[j].0 == k,
            forall|k: Seq<char>|
                #[trigger] out@.dom().contains(k) <==> exists|j: int|
                    0 <= j < i && raw.kv()[j].0 == k,
            forall|j: int|
                0 <= j < i && (forall|j2: int| j < j2 < i ==> raw.kv()[j2].0 != raw.kv()[j].0)
                    ==> out@[#[trigger] raw.kv()[j].0] == join_sp(
                    resolve_toks(
                        raw@,
                        Set::empty().insert(raw.kv()[j].0),
                        split_ws(raw.kv()[j].1),
                    ),
                ),
        decreases n - i,
    {
        let key = raw.key_at(i).clone();
        let val = raw.value_at(i);
        let mut visiting: Vec<String> = Vec::new();
        visiting.push(key.clone());
        proof {
            assert(views_of(visiting@) =~= Seq::<Seq<char>>::empty().push(key@));
            lemma_push_to_set(Seq::empty(), key@);
            assert(Seq::<Seq<char>>::empty().to_set() =~= Set::<Seq<char>>::empty());
            assert(views_of(visiting@).to_set() =~= Set::empty().insert(key@));
        }
        let resolved = resolve_value_str(raw, &mut visiting, val.as_str());
        out.insert(key, resolved);
        i = i + 1;
    }
    proof {
        assert forall|k: Seq<char>| #[trigger] out@.dom().contains(k) <==> raw@.dom().contains(
            k,
        ) by {}
        assert forall|k: Seq<char>| #[trigger] raw@.dom().contains(k) implies out@[k]
            == resolve_value(raw@, k) by {
            lemma_last_occurrence(raw.kv(), k);
            let j = choose|j: int|
                0 <= j < raw.kv().len() && raw.kv()[j].0 == k && forall|j2: int|
                    j < j2 < raw.kv().len() ==> raw.kv()[j2].0 != k;
            crate::alias_map::lemma_map_of_last(raw.kv(), j);
            assert(raw@[k] == raw.kv()[j].1);
        }
        assert(out@ =~= resolve_map_spec(raw@));
    }
    out
}

/// Among the entries that bind `k`, there is a last one.
proof fn lemma_last_occurrence(kv: Seq<(Seq<char>, Seq<char>)>, k: Seq<char>)
    requires
        exists|j: int| 0 <= j < kv.len() && kv[j].0 == k,
    ensures
        exists|j: int|
            0 <= j < kv.len() && kv[j].0 == k && forall|j2: int|
                j < j2 < kv.len() ==> kv[j2].0 != k,
    decreases kv.len(),
{
    if kv.last().0 == k {
        assert(kv[kv.len() - 1].0 == k && forall|j2: int|
            kv.len() - 1 < j2 < kv.len() ==> kv[j2].0 != k);
    } else {
        assert(forall|q: int| 0 <= q < kv.len() - 1 ==> kv.drop_last()[q] == kv[q]);
        let j0 = choose|j: int| 0 <= j < kv.len() && kv[j].0 == k;
        assert(kv.drop_last()[j0].0 == k);
        lemma_last_occurrence(kv.drop_last(), k);
        let j = choose|j: int|
            0 <= j < kv.drop_last().len() && kv.drop_last()[j].0 == k && forall|j2: int|
                j < j2 < kv.drop_last().len() ==> kv.drop_last()[j2].0 != k;
        assert(kv[j].0 == k);
        assert forall|j2: int| j < j2 < kv.len() implies kv[j2].0 != k by {
            if j2 < kv.len() - 1 {
                assert(kv.drop_last()[j2].0 != k);
            }
        }
    }
}

} // verus!
