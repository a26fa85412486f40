//! Extraction of raw alias definitions from CSS-like source text:
//! `@expand <Name> { @apply <utilities>; &<Modifier> { @apply <utilities>; } }`.

use vstd::prelude::*;

use crate::alias_map::AliasMap;

verus! {

use crate::alias_map::map_of;
use crate::text::{
    is_ws,
    is_ws_char,
    lemma_alnum_end_idx,
    lemma_scan_to_char,
    lemma_skip_ws_idx,
    alnum_end_idx,
    alnum_end_from,
    find_char_from,
    scan_to_char,
    skip_ws_from,
    skip_ws_idx,
    trim,
    trim_spec,
    views_of,
    lemma_views_of_push,
};

/// Index of the closing brace that brings the brace depth, starting at
/// `depth`, down to zero, scanning from `i`; `s.len()` when the braces
/// never balance.
pub open spec fn close_idx(s: Seq<char>, i: int, depth: int) -> int
    decreases s.len() - i,
    when 0 <= i
{
    if i >= s.len() {
        s.len() as int
    } else if s[i] == '}' && depth == 1 {
        i
    } else {
        close_idx(
            s,
            i + 1,
            if s[i] == '{' {
                depth + 1
            } else if s[i] == '}' {
                depth - 1
            } else {
                depth
            },
        )
    }
}

pub proof fn lemma_close_idx(s: Seq<char>, i: int, depth: int)
    requires
        0 <= i <= s.len(),
    ensures
        i <= close_idx(s, i, depth) <= s.len(),
    decreases s.len() - i,
{
    if i < s.len() && !(s[i] == '}' && depth == 1) {
        lemma_close_idx(
            s,
            i + 1,
            if s[i] == '{' {
                depth + 1
            } else if s[i] == '}' {
                depth - 1
            } else {
                depth
            },
        );
    }
}

/// The content of a block whose opening brace was already consumed:
/// everything before the matching closing brace, or all of `s` when the
/// braces never balance.
pub open spec fn block_content_spec(s: Seq<char>) -> Seq<char> {
    s.subrange(0, close_idx(s, 0, 1))
}

/// Index of the first occurrence of `pat` in `s` at or after `from`;
/// `s.len()` when there is none.
pub open spec fn find_sub_from(s: Seq<char>, from: int, pat: Seq<char>) -> int
    decreases s.len() - from,
    when 0 <= from && pat.len() >= 1
{
    if from + pat.len() > s.len() {
        s.len() as int
    } else if s.subrange(from, from + pat.len() as int) == pat {
        from
    } else {
        find_sub_from(s, from + 1, pat)
    }
}

pub proof fn lemma_find_sub_from(s: Seq<char>, from: int, pat: Seq<char>)
    requires
        0 <= from <= s.len(),
        pat.len() >= 1,
    ensures
        from <= find_sub_from(s, from, pat) <= s.len(),
        find_sub_from(s, from, pat) < s.len() ==> find_sub_from(s, from, pat) + pat.len()
            <= s.len() && s.subrange(
            find_sub_from(s, from, pat),
            find_sub_from(s, from, pat) + pat.len() as int,
        ) == pat,
    decreases s.len() - from,
{
    if from + pat.len() <= s.len() && s.subrange(from, from + pat.len() as int) != pat {
        lemma_find_sub_from(s, from + 1, pat);
    }
}

/// The marker that opens an alias definition.
pub open spec fn expand_marker() -> Seq<char> {
    seq!['@', 'e', 'x', 'p', 'a', 'n', 'd']
}

/// The marker that opens a utility-list statement.
pub open spec fn apply_marker() -> Seq<char> {
    seq!['@', 'a', 'p', 'p', 'l', 'y']
}

/// The utility lists of the `@apply <utilities>;` statements of `s` at or
/// after `p`, each trimmed, in source order.  A marker not followed by
/// whitespace is skipped; a statement missing its `;` ends the scan.
pub open spec fn applies_spec(s: Seq<char>, p: int) -> Seq<Seq<char>>
    decreases s.len() - p,
    when 0 <= p <= s.len()
    via applies_spec_decreases
{
    let m = find_sub_from(s, p, apply_marker());
    if m >= s.len() {
        Seq::empty()
    } else {
        let after = m + 6;
        if after < s.len() && is_ws_char(s[after]) {
            let sc = scan_to_char(s, after, ';');
            if sc >= s.len() {
                Seq::empty()
            } else {
                seq![trim_spec(s.subrange(after, sc))] + applies_spec(s, sc + 1)
            }
        } else {
            applies_spec(s, after)
        }
    }
}

#[via_fn]
proof fn applies_spec_decreases(s: Seq<char>, p: int) {
    lemma_find_sub_from(s, p, apply_marker());
    let m = find_sub_from(s, p, apply_marker());
    if m < s.len() {
        lemma_scan_to_char(s, m + 6, ';');
    }
}

/// The contributions tagged with the alias they belong to.
pub open spec fn tag_all(name: Seq<char>, cs: Seq<Seq<char>>) -> Seq<(Seq<char>, Seq<char>)> {
    cs.map_values(|c: Seq<char>| (name, c))
}

/// The contributions of an `@expand` block body from position `p` on:
/// utility lists before the next `&` belong to the component itself; a
/// `&<Modifier> { ... }` rule contributes its lists to the concatenated
/// name; a `&` with no block is skipped.
pub open spec fn scan_body(name: Seq<char>, body: Seq<char>, p: int) -> Seq<
    (Seq<char>, Seq<char>),
>
    decreases body.len() - p,
    when 0 <= p <= body.len()
    via scan_body_decreases
{
    let a = scan_to_char(body, p, '&');
    let before = tag_all(name, applies_spec(body.subrange(p, a), 0));
    if a >= body.len() {
        before
    } else {
        let ms = skip_ws_idx(body, a + 1);
        let me = alnum_end_idx(body, ms);
        let modifier = body.subrange(ms, me);
        let ob = scan_to_char(body, me, '{');
        if ob >= body.len() {
            before + scan_body(name, body, a + 1)
        } else {
            let tail = body.subrange(ob + 1, body.len() as int);
            let content = block_content_spec(tail);
            let next0 = ob + 1 + close_idx(tail, 0, 1) + 1;
            let next = if next0 <= body.len() {
                next0
            } else {
                body.len() as int
            };
            before + tag_all(name + modifier, applies_spec(content, 0)) + scan_body(
                name,
                body,
                next,
            )
        }
    }
}

#[via_fn]
proof fn scan_body_decreases(name: Seq<char>, body: Seq<char>, p: int) {
    lemma_scan_to_char(body, p, '&');
    let a = scan_to_char(body, p, '&');
    if a < body.len() {
        lemma_skip_ws_idx(body, a + 1);
        let ms = skip_ws_idx(body, a + 1);
        lemma_alnum_end_idx(body, ms);
        let me = alnum_end_idx(body, ms);
        lemma_scan_to_char(body, me, '{');
        let ob = scan_to_char(body, me, '{');
        if ob < body.len() {
            lemma_close_idx(body.subrange(ob + 1, body.len() as int), 0, 1);
        }
    }
}

/// The contributions of every `@expand` block of `css` at or after `i`, in
/// source order: the block's name is the alphanumeric run after the marker
/// (leading whitespace skipped); its body runs to the matching closing
/// brace; a marker with no following `{` is skipped.
pub open spec fn scan_expands(css: Seq<char>, i: int) -> Seq<(Seq<char>, Seq<char>)>
    decreases css.len() - i,
    when 0 <= i <= css.len()
    via scan_expands_decreases
{
    let m = find_sub_from(css, i, expand_marker());
    if m >= css.len() {
        Seq::empty()
    } else {
        let after = m + 7;
        let ns = skip_ws_idx(css, after);
        let ne = alnum_end_idx(css, ns);
        let name = css.subrange(ns, ne);
        let ob = scan_to_char(css, ne, '{');
        if ob >= css.len() {
            scan_expands(css, after)
        } else {
            let tail = css.subrange(ob + 1, css.len() as int);
            let body = block_content_spec(tail);
            let next0 = ob + 1 + close_idx(tail, 0, 1) + 1;
            let next = if next0 <= css.len() {
                next0
            } else {
                css.len() as int
            };
            scan_body(name, body, 0) + scan_expands(css, next)
        }
    }
}

#[via_fn]
proof fn scan_expands_decreases(css: Seq<char>, i: int) {
    lemma_find_sub_from(css, i, expand_marker());
    let m = find_sub_from(css, i, expand_marker());
    if m < css.len() {
        lemma_skip_ws_idx(css, m + 7);
        let ns = skip_ws_idx(css, m + 7);
        lemma_alnum_end_idx(css, ns);
        let ne = alnum_end_idx(css, ns);
        lemma_scan_to_char(css, ne, '{');
        let ob = scan_to_char(css, ne, '{');
        if ob < css.len() {
            lemma_close_idx(css.subrange(ob + 1, css.len() as int), 0, 1);
        }
    }
}

/// Folds a sequence of contributions into a raw alias map: every
/// contribution is appended to its alias's value behind a single space, a
/// first contribution to the empty value.
pub open spec fn accumulate(ps: Seq<(Seq<char>, Seq<char>)>) -> Map<Seq<char>, Seq<char>>
    decreases ps.len(),
{
    if ps.len() == 0 {
        Map::empty()
    } else {
        let m = accumulate(ps.drop_last());
        let k = ps.last().0;
        m.insert(
            k,
            (if m.dom().contains(k) {
                m[k]
            } else {
                Seq::empty()
            }) + seq![' '] + ps.last().1,
        )
    }
}

/// Every value of the map, trimmed.
pub open spec fn trim_values(m: Map<Seq<char>, Seq<char>>) -> Map<Seq<char>, Seq<char>> {
    Map::new(|k: Seq<char>| m.dom().contains(k), |k: Seq<char>| trim_spec(m[k]))
}

/// The raw alias map extracted from CSS-like source text.
pub open spec fn extract_aliases_spec(css: Seq<char>) -> Map<Seq<char>, Seq<char>> {
    trim_values(accumulate(scan_expands(css, 0)))
}

/// The views of a sequence of string pairs.
pub open spec fn pair_views(ps: Seq<(String, String)>) -> Seq<(Seq<char>, Seq<char>)> {
    ps.map_values(|e: (String, String)| (e.0@, e.1@))
}

/// Returns the content of a block whose opening brace was already
/// consumed: everything before the brace that balances it, the whole text
/// when the braces never balance.
pub fn extract_block_content(text: &str) -> (r: String)
    requires
        text@.len() < usize::MAX,
    ensures
        r@ == block_content_spec(text@),
{
    let n = text.unicode_len();
    let mut i: usize = 0;
    let mut depth: usize = 1;
    loop
        invariant
            0 <= i <= n,
            n == text@.len(),
            n < usize::MAX,
            1 <= depth <= i + 1,
            close_idx(text@, i as int, depth as int) == close_idx(text@, 0, 1),
        decreases n - i,
    {
        if i >= n {
            proof {
                assert(close_idx(text@, i as int, depth as int) == n);
                assert(text@.subrange(0, n as int) =~= text@);
            }
            return text.to_owned();
        }
        let c = text.get_char(i);
        if c == '}' && depth == 1 {
            return text.substring_char(0, i).to_owned();
        }
        if c == '{' {
            depth = depth + 1;
        } else if c == '}' {
            depth = depth - 1;
        }
        i = i + 1;
    }
}

/// Whether `pat` occurs in `s` at position `i`.
fn match_at(s: &str, i: usize, pat: &str) -> (r: bool)
    requires
        i + pat@.len() <= s@.len(),
    ensures
        r == (s@.subrange(i as int, i + pat@.len()) == pat@),
{
    let n = s.unicode_len();
    let pl = pat.unicode_len();
    let mut j: usize = 0;
    while j < pl
        invariant
            0 <= j <= pl,
            pl == pat@.len(),
            n == s@.len(),
            i + pl <= n,
            forall|q: int| 0 <= q < j ==> s@[i + q] == pat@[q],
        decreases pl - j,
    {
        if s.get_char(i + j) != pat.get_char(j) {
            proof {
                assert(s@.subrange(i as int, i + pat@.len())[j as int] != pat@[j as int]);
            }
            return false;
        }
        j = j + 1;
    }
    proof {
        assert(s@.subrange(i as int, i + pat@.len()) =~= pat@);
    }
    true
}

/// Executable counterpart of [`find_sub_from`].
fn find_sub(s: &str, from: usize, pat: &str) -> (r: usize)
    requires
        from <= s@.len(),
        pat@.len() >= 1,
    ensures
        r as int == find_sub_from(s@, from as int, pat@),
{
    let n = s.unicode_len();
    let pl = pat.unicode_len();
    let mut i = from;
    loop
        invariant
            from <= i <= n,
            n == s@.len(),
            pl == pat@.len(),
            pl >= 1,
            find_sub_from(s@, i as int, pat@) == find_sub_from(s@, from as int, pat@),
        decreases n - i,
    {
        if pl > n - i {
            proof {
                assert(find_sub_from(s@, i as int, pat@) == n);
            }
            return n;
        }
        if match_at(s, i, pat) {
            return i;
        }
        i = i + 1;
    }
}

/// The trimmed `@apply` utility lists of a block segment, in order.
fn applies_list(seg: &str) -> (r: Vec<String>)
    ensures
        views_of(r@) =~= applies_spec(seg@, 0),
{
    let n = seg.unicode_len();
    let mut out: Vec<String> = Vec::new();
    let mut p: usize = 0;
    proof {
        assert(views_of(out@) + applies_spec(seg@, 0) =~= applies_spec(seg@, 0));
    }
    loop
        invariant
            0 <= p <= n,
            n == seg@.len(),
            applies_spec(seg@, 0) =~= views_of(out@) + applies_spec(seg@, p as int),
        decreases n - p,
    {
        proof {
            reveal_strlit("@apply");
            assert("@apply"@ =~= apply_marker());
        }
        let m = find_sub(seg, p, "@apply");
        proof {
            lemma_find_sub_from(seg@, p as int, apply_marker());
        }
        if m >= n {
            proof {
                assert(applies_spec(seg@, p as int) =~= Seq::<Seq<char>>::empty());
                assert(views_of(out@) + applies_spec(seg@, p as int) =~= views_of(out@));
            }
            return out;
        }
        let after = m + 6;
        let is_stmt = after < n && is_ws(seg.get_char(after));
        if !is_stmt {
            p = after;
            continue;
        }
        let sc = find_char_from(seg, after, ';');
        proof {
            lemma_scan_to_char(seg@, after as int, ';');
        }
        if sc >= n {
            proof {
                assert(applies_spec(seg@, p as int) =~= Seq::<Seq<char>>::empty());
                assert(views_of(out@) + applies_spec(seg@, p as int) =~= views_of(out@));
            }
            return out;
        }
        let item = trim(seg.substring_char(after, sc));
        proof {
            lemma_views_of_push(out@, item);
            assert(applies_spec(seg@, p as int) =~= seq![
                trim_spec(seg@.subrange(after as int, sc as int)),
            ] + applies_spec(seg@, sc + 1));
        }
        out.push(item);
        p = sc + 1;
    }
}

/// Pushes one tagged pair per utility list.
fn push_tagged(out: &mut Vec<(String, String)>, name: &str, items: &Vec<String>)
    ensures
        pair_views(final(out)@) =~= pair_views(old(out)@) + tag_all(name@, views_of(items@)),
{
    let n = items.len();
    let mut j: usize = 0;
    proof {
        assert(pair_views(out@) =~= pair_views(out@) + tag_all(name@, views_of(items@).take(0)));
    }
    while j < n
        invariant
            0 <= j <= n,
            n == items@.len(),
            pair_views(out@) =~= pair_views(old(out)@) + tag_all(
                name@,
                views_of(items@).take(j as int),
            ),
        decreases n - j,
    {
        let ghost prev = out@;
        out.push((name.to_owned(), items[j].clone()));
        proof {
            assert(pair_views(out@) =~= pair_views(prev).push((name@, views_of(items@)[j as int])));
            assert(tag_all(name@, views_of(items@).take(j + 1)) =~= tag_all(
                name@,
                views_of(items@).take(j as int),
            ).push((name@, views_of(items@)[j as int])));
        }
        j = j + 1;
    }
    proof {
        assert(views_of(items@).take(n as int) =~= views_of(items@));
    }
}

/// The contributions of one block body, in source order.
fn collect_body(name: &str, body: &str) -> (r: Vec<(String, String)>)
    requires
        body@.len() < usize::MAX,
    ensures
        pair_views(r@) =~= scan_body(name@, body@, 0),
{
    let n = body.unicode_len();
    let mut out: Vec<(String, String)> = Vec::new();
    let mut p: usize = 0;
    proof {
        assert(pair_views(out@) + scan_body(name@, body@, 0) =~= scan_body(name@, body@, 0));
    }
    loop
        invariant
            0 <= p <= n,
            n == body@.len(),
            n < usize::MAX,
            scan_body(name@, body@, 0) =~= pair_views(out@) + scan_body(name@, body@, p as int),
        decreases n - p,
    {
        let a = find_char_from(body, p, '&');
        proof {
            lemma_scan_to_char(body@, p as int, '&');
        }
        let seg = body.substring_char(p, a);
        let items = applies_list(seg);
        let ghost before_pairs = pair_views(out@);
        push_tagged(&mut out, name, &items);
        proof {
            assert(pair_views(out@) =~= before_pairs + tag_all(
                name@,
                applies_spec(body@.subrange(p as int, a as int), 0),
            ));
        }
        if a >= n {
            proof {
                assert(scan_body(name@, body@, p as int) =~= tag_all(
                    name@,
                    applies_spec(body@.subrange(p as int, a as int), 0),
                ));
                assert(scan_body(name@, body@, 0) =~= pair_views(out@));
            }
            return out;
        }
        let ms = skip_ws_from(body, a + 1);
        proof {
            lemma_skip_ws_idx(body@, a + 1);
        }
        let me = alnum_end_from(body, ms);
        proof {
            lemma_alnum_end_idx(body@, ms as int);
        }
        let modifier = body.substring_char(ms, me);
        let ob = find_char_from(body, me, '{');
        proof {
            lemma_scan_to_char(body@, me as int, '{');
        }
        if ob >= n {
            proof {
                assert(scan_body(name@, body@, p as int) =~= tag_all(
                    name@,
                    applies_spec(body@.subrange(p as int, a as int), 0),
                ) + scan_body(name@, body@, a + 1));
            }
            p = a + 1;
            continue;
        }
        let tail = body.substring_char(ob + 1, n);
        let content = extract_block_content(tail);
        proof {
            lemma_close_idx(tail@, 0, 1);
        }
        let mut nested_name = name.to_owned();
        nested_name.append(modifier);
        let nitems = applies_list(content.as_str());
        let ghost mid_pairs = pair_views(out@);
        push_tagged(&mut out, nested_name.as_str(), &nitems);
        let cl = content.unicode_len();
        let next = if ob + 1 + cl < n {
            ob + 1 + cl + 1
        } else {
            n
        };
        proof {
            assert(nested_name@ == name@ + modifier@);
            assert(pair_views(out@) =~= mid_pairs + tag_all(
                name@ + modifier@,
                applies_spec(block_content_spec(tail@), 0),
            ));
            assert(scan_body(name@, body@, p as int) =~= tag_all(
                name@,
                applies_spec(body@.subrange(p as int, a as int), 0),
            ) + tag_all(name@ + modifier@, applies_spec(block_content_spec(tail@), 0)) + scan_body(
                name@,
                body@,
                next as int,
            ));
        }
        p = next;
    }
}

/// The contributions of every `@expand` block of the source, in order.
fn collect_expands(css: &str) -> (r: Vec<(String, String)>)
    requires
        css@.len() < usize::MAX,
    ensures
        pair_views(r@) =~= scan_expands(css@, 0),
{
    let n = css.unicode_len();
    let mut out: Vec<(String, String)> = Vec::new();
    let mut pos: usize = 0;
    proof {
        assert(pair_views(out@) + scan_expands(css@, 0) =~= scan_expands(css@, 0));
    }
    loop
        invariant
            0 <= pos <= n,
            n == css@.len(),
            n < usize::MAX,
            scan_expands(css@, 0) =~= pair_views(out@) + scan_expands(css@, pos as int),
        decreases n - pos,
    {
        proof {
            reveal_strlit("@expand");
            assert("@expand"@ =~= expand_marker());
        }
        let m = find_sub(css, pos, "@expand");
        proof {
            lemma_find_sub_from(css@, pos as int, expand_marker());
        }
        if m >= n {
            proof {
                assert(scan_expands(css@, pos as int) =~= Seq::<(Seq<char>, Seq<char>)>::empty());
                assert(pair_views(out@) + scan_expands(css@, pos as int) =~= pair_views(out@));
            }
            return out;
        }
        let after = m + 7;
        let ns = skip_ws_from(css, after);
        proof {
            lemma_skip_ws_idx(css@, after as int);
        }
        let ne = alnum_end_from(css, ns);
        proof {
            lemma_alnum_end_idx(css@, ns as int);
        }
        let name = css.substring_char(ns, ne);
        let ob = find_char_from(css, ne, '{');
        proof {
            lemma_scan_to_char(css@, ne as int, '{');
        }
        if ob >= n {
            proof {
                assert(scan_expands(css@, pos as int) =~= scan_expands(css@, after as int));
            }
            pos = after;
            continue;
        }
        let tail = css.substring_char(ob + 1, n);
        let body = extract_block_content(tail);
        proof {
            lemma_close_idx(tail@, 0, 1);
        }
        let pairs = collect_body(name, body.as_str());
        let ghost prev = pair_views(out@);
        let mut pairs_mut = pairs;
        out.append(&mut pairs_mut);
        let cl = body.unicode_len();
        let next = if ob + 1 + cl < n {
            ob + 1 + cl + 1
        } else {
            n
        };
        proof {
            assert(pair_views(out@) =~= prev + scan_body(name@, block_content_spec(tail@), 0));
            assert(scan_expands(css@, pos as int) =~= scan_body(
                name@,
                block_content_spec(tail@),
                0,
            ) + scan_expands(css@, next as int));
        }
        pos = next;
    }
}

/// Folds contribution pairs into a raw alias map.
fn accumulate_pairs(ps: &Vec<(String, String)>) -> (m: AliasMap)
    ensures
        m@ =~= accumulate(pair_views(ps@)),
{
    let n = ps.len();
    let mut m = AliasMap::new();
    let mut i: usize = 0;
    while i < n
        invariant
            0 <= i <= n,
            n == ps@.len(),
            m@ =~= accumulate(pair_views(ps@).take(i as int)),
        decreases n - i,
    {
        m.append_value(ps[i].0.as_str(), ps[i].1.as_str());
        proof {
            assert(pair_views(ps@).take(i + 1).drop_last() =~= pair_views(ps@).take(i as int));
            assert(pair_views(ps@).take(i + 1).last() == pair_views(ps@)[i as int]);
        }
        i = i + 1;
    }
    proof {
        assert(pair_views(ps@).take(n as int) =~= pair_views(ps@));
    }
    m
}

/// A copy of the map with every value trimmed.
fn trim_map_values(m: &AliasMap) -> (r: AliasMap)
    ensures
        r@ =~= trim_values(m@),
{
    let n = m.num_entries();
    let mut out = AliasMap::new();
    let mut i: usize = 0;
    proof {
        m.lemma_view();
        assert(out@ =~= trim_values(map_of(m.kv().take(0))));
    }
    while i < n
        invariant
            0 <= i <= n,
            n == m.kv().len(),
            out@ =~= trim_values(map_of(m.kv().take(i as int))),
        decreases n - i,
    {
        let key = m.key_at(i).clone();
        let tv = trim(m.value_at(i).as_str());
        out.insert(key, tv);
        proof {
            assert(m.kv().take(i + 1).drop_last() =~= m.kv().take(i as int));
            assert(map_of(m.kv().take(i + 1)) == map_of(m.kv().take(i as int)).insert(
                m.kv()[i as int].0,
                m.kv()[i as int].1,
            ));
            assert(out@ =~= trim_values(map_of(m.kv().take(i + 1))));
        }
        i = i + 1;
    }
    proof {
        assert(m.kv().take(n as int) =~= m.kv());
        m.lemma_view();
    }
    out
}

/// Extracts the raw alias map from CSS-like source text: for every
/// `@expand` block, the component's own `@apply` lists and those of its
/// `&<Modifier>` rules, gathered per alias name in source order, each
/// value finally trimmed.
pub fn extract_aliases(css: &str) -> (r: AliasMap)
    requires
        css@.len() < usize::MAX,
    ensures
        r@ =~= extract_aliases_spec(css@),
{
    let pairs = collect_expands(css);
    let raw = accumulate_pairs(&pairs);
    trim_map_values(&raw)
}

} // verus!
