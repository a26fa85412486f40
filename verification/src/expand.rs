//! Token expansion: rewriting className tokens through a resolved alias
//! map, with variant-prefix propagation and important-marker placement.

use vstd::prelude::*;

use crate::alias_map::AliasMap;

verus! {

use crate::text::{
    last_colon,
    lemma_last_colon,
    lemma_scan_to_char,
    lemma_join_sp_push,
    scan_to_char,
    split_colon,
    split_ws,
    join_sp,
    views_of,
    contains_string,
    find_last_colon,
    find_char_from,
    split_colon_segments,
    split_whitespace_tokens,
    str_eq,
};

/// The index where the leading variant segments of `u` end, starting the
/// search at `pos`: as long as the segment before the next colon is one of
/// `names`, it is consumed.
pub open spec fn strip_variants_idx(names: Seq<Seq<char>>, u: Seq<char>, pos: int) -> int
    decreases u.len() - pos,
    when 0 <= pos <= u.len()
    via strip_variants_idx_decreases
{
    let c = scan_to_char(u, pos, ':');
    if c < u.len() && names.contains(u.subrange(pos, c)) {
        strip_variants_idx(names, u, c + 1)
    } else {
        pos
    }
}

#[via_fn]
proof fn strip_variants_idx_decreases(names: Seq<Seq<char>>, u: Seq<char>, pos: int) {
    lemma_scan_to_char(u, pos, ':');
}

/// Variant-prefix propagation: an empty prefix leaves the utility alone;
/// otherwise the utility loses the leading variants that the prefix (split
/// on colons, trailing colon dropped) already carries, and the whole prefix
/// is put in front of what remains.
pub open spec fn apply_variant_prefix_spec(prefix: Seq<char>, u: Seq<char>) -> Seq<char> {
    if prefix.len() == 0 {
        u
    } else {
        let names = split_colon(prefix.subrange(0, prefix.len() - 1));
        prefix + u.subrange(strip_variants_idx(names, u, 0), u.len() as int)
    }
}

/// Important insertion: `!` goes right after the last colon, or in front of
/// the whole utility when it has no colon.
pub open spec fn insert_important_spec(u: Seq<char>) -> Seq<char> {
    let i = last_colon(u);
    if i >= 0 {
        u.subrange(0, i + 1) + seq!['!'] + u.subrange(i + 1, u.len() as int)
    } else {
        seq!['!'] + u
    }
}

/// One utility of an alias value, rewritten for an alias reference that
/// carried `prefix` and, when `important` holds, the important marker.
pub open spec fn expanded_utility(prefix: Seq<char>, important: bool, u: Seq<char>) -> Seq<char> {
    if important {
        insert_important_spec(apply_variant_prefix_spec(prefix, u))
    } else {
        apply_variant_prefix_spec(prefix, u)
    }
}

/// The variant prefix of a token: everything up to and including its last
/// colon (empty when the token has none).
pub open spec fn variant_prefix_of(t: Seq<char>) -> Seq<char> {
    t.subrange(0, last_colon(t) + 1)
}

/// What follows the last colon of a token.
pub open spec fn variant_rest_raw(t: Seq<char>) -> Seq<char> {
    t.subrange(last_colon(t) + 1, t.len() as int)
}

/// Whether the part after the last colon starts with the important marker.
pub open spec fn variant_has_important(t: Seq<char>) -> bool {
    variant_rest_raw(t).len() > 0 && variant_rest_raw(t)[0] == '!'
}

/// The candidate alias name of a variant-prefixed token: the part after
/// the last colon, with one leading `!` stripped.
pub open spec fn variant_base(t: Seq<char>) -> Seq<char> {
    let r = variant_rest_raw(t);
    if variant_has_important(t) {
        r.subrange(1, r.len() as int)
    } else {
        r
    }
}

/// First expansion rule: the token has a colon and the part after the last
/// colon (important marker stripped) names an alias.
pub open spec fn variant_rule_applies(m: Map<Seq<char>, Seq<char>>, t: Seq<char>) -> bool {
    last_colon(t) >= 0 && m.dom().contains(variant_base(t))
}

/// Second expansion rule: the token starts with `!` and the remainder
/// names an alias.
pub open spec fn important_rule_applies(m: Map<Seq<char>, Seq<char>>, t: Seq<char>) -> bool {
    t.len() > 0 && t[0] == '!' && m.dom().contains(t.subrange(1, t.len() as int))
}

/// Third expansion rule: the whole token names an alias.
pub open spec fn direct_rule_applies(m: Map<Seq<char>, Seq<char>>, t: Seq<char>) -> bool {
    m.dom().contains(t)
}

/// Whether any expansion rule matches `t`, so that expansion occurs.
pub open spec fn expand_token_matched(m: Map<Seq<char>, Seq<char>>, t: Seq<char>) -> bool {
    variant_rule_applies(m, t) || important_rule_applies(m, t) || direct_rule_applies(m, t)
}

/// The expansion of a single token under alias map `m`: the first matching
/// rule wins, and a token no rule matches passes through unchanged.
pub open spec fn expand_token_str(m: Map<Seq<char>, Seq<char>>, t: Seq<char>) -> Seq<char> {
    if variant_rule_applies(m, t) {
        join_sp(
            split_ws(m[variant_base(t)]).map_values(
                |u: Seq<char>| expanded_utility(variant_prefix_of(t), variant_has_important(t), u),
            ),
        )
    } else if important_rule_applies(m, t) {
        join_sp(
            split_ws(m[t.subrange(1, t.len() as int)]).map_values(
                |u: Seq<char>| expanded_utility(Seq::empty(), true, u),
            ),
        )
    } else if direct_rule_applies(m, t) {
        m[t]
    } else {
        t
    }
}

/// The expansion of a whole className string: its whitespace-separated
/// tokens, each expanded, joined by single spaces.
pub open spec fn expand_class_name_str(m: Map<Seq<char>, Seq<char>>, s: Seq<char>) -> Seq<char> {
    join_sp(split_ws(s).map_values(|t: Seq<char>| expand_token_str(m, t)))
}

/// The tokens of a className string on which expansion occurred.
pub open spec fn matched_token_set(m: Map<Seq<char>, Seq<char>>, s: Seq<char>) -> Set<Seq<char>> {
    split_ws(s).to_set().filter(|t: Seq<char>| expand_token_matched(m, t))
}

/// A token that is not a key of the alias map — directly, after stripping
/// one leading `!`, or after stripping its variant prefix and an optional
/// `!` — passes through expansion unchanged, and no match is reported.
pub proof fn lemma_unmatched_token_unchanged(m: Map<Seq<char>, Seq<char>>, t: Seq<char>)
    requires
        !variant_rule_applies(m, t),
        !important_rule_applies(m, t),
        !direct_rule_applies(m, t),
    ensures
        expand_token_str(m, t) == t,
        !expand_token_matched(m, t),
{
}

/// Insert the important marker right after the last colon of `utility`, or
/// in front of it when it has no colon.
pub fn insert_important(utility: &str) -> (r: String)
    ensures
        r@ == insert_important_spec(utility@),
{
    proof {
        reveal_strlit("!");
        assert("!"@ =~= seq!['!']);
        lemma_last_colon(utility@);
    }
    let n = utility.unicode_len();
    match find_last_colon(utility) {
        Some(i) => {
            let mut r = utility.substring_char(0, i + 1).to_owned();
            r.append("!");
            r.append(utility.substring_char(i + 1, n));
            r
        },
        None => {
            let mut r = String::new();
            r.append("!");
            r.append(utility);
            proof {
                assert(r@ =~= seq!['!'] + utility@);
            }
            r
        },
    }
}

/// Prefix `utility` with `variant_prefix`, first absorbing the leading
/// variants of `utility` that the prefix already carries.
pub fn apply_variant_prefix(variant_prefix: &str, utility: &str) -> (r: String)
    ensures
        r@ == apply_variant_prefix_spec(variant_prefix@, utility@),
{
    let plen = variant_prefix.unicode_len();
    if plen == 0 {
        return utility.to_owned();
    }
    let body = variant_prefix.substring_char(0, plen - 1);
    let names = split_colon_segments(body);
    let ghost names_v = split_colon(variant_prefix@.subrange(0, variant_prefix@.len() - 1));
    proof {
        assert(views_of(names@) =~= names_v);
    }
    let n = utility.unicode_len();
    let mut pos: usize = 0;
    loop
        invariant
            0 <= pos <= n,
            n == utility@.len(),
            variant_prefix@.len() > 0,
            names_v == split_colon(variant_prefix@.subrange(0, variant_prefix@.len() - 1)),
            views_of(names@) == names_v,
            strip_variants_idx(names_v, utility@, pos as int) == strip_variants_idx(
                names_v,
                utility@,
                0,
            ),
        decreases n - pos,
    {
        let c = find_char_from(utility, pos, ':');
        proof {
            lemma_scan_to_char(utility@, pos as int, ':');
        }
        let mut seg_matches = false;
        if c < n {
            let seg = utility.substring_char(pos, c);
            seg_matches = contains_string(&names, seg);
        }
        if seg_matches {
            pos = c + 1;
        } else {
            proof {
                assert(strip_variants_idx(names_v, utility@, pos as int) == pos as int);
            }
            let mut r = variant_prefix.to_owned();
            r.append(utility.substring_char(pos, n));
            return r;
        }
    }
}

/// One utility of an alias value, rewritten for a reference that carried
/// `prefix` and, when `important` holds, the important marker; then all of
/// them joined by single spaces.
fn expand_alias_value(value: &str, prefix: &str, important: bool) -> (r: String)
    ensures
        r@ == join_sp(
            split_ws(value@).map_values(|u: Seq<char>| expanded_utility(prefix@, important, u)),
        ),
{
    proof {
        reveal_strlit(" ");
        assert(" "@ =~= seq![' ']);
    }
    let toks = split_whitespace_tokens(value);
    let ghost f = |u: Seq<char>| expanded_utility(prefix@, important, u);
    let ghost parts = split_ws(value@).map_values(f);
    let mut r = String::new();
    let mut k: usize = 0;
    let nt = toks.len();
    while k < nt
        invariant
            0 <= k <= nt,
            nt == toks@.len(),
            views_of(toks@) =~= split_ws(value@),
            f == (|u: Seq<char>| expanded_utility(prefix@, important, u)),
            parts == split_ws(value@).map_values(f),
            r@ == join_sp(parts.take(k as int)),
        decreases nt - k,
    {
        proof {
            reveal_strlit(" ");
            assert(" "@ =~= seq![' ']);
        }
        let prefixed = apply_variant_prefix(prefix, toks[k].as_str());
        let piece = if important {
            insert_important(prefixed.as_str())
        } else {
            prefixed
        };
        proof {
            assert(views_of(toks@)[k as int] == toks@[k as int]@);
            assert(piece@ == f(split_ws(value@)[k as int]));
            assert(parts.take(k + 1) =~= parts.take(k as int).push(piece@));
            lemma_join_sp_push(parts.take(k as int), piece@);
        }
        if k > 0 {
            r.append(" ");
        }
        r.append(piece.as_str());
        proof {
            if k == 0 {
                assert(Seq::<char>::empty() + piece@ =~= piece@);
            }
        }
        k = k + 1;
    }
    proof {
        assert(parts.take(nt as int) =~= parts);
    }
    r
}

/// Configuration of the transform: a resolved alias map and the debug
/// flag that asks for expanded alias names to be reported.
pub struct Config {
    pub aliases: AliasMap,
    pub debug: bool,
}

/// Expands alias tokens inside className strings against a fixed,
/// already-resolved alias map.
pub struct TailwindExpandVisitor {
    aliases: AliasMap,
    debug: bool,
}

impl TailwindExpandVisitor {
    /// The alias map the visitor expands with.
    pub closed spec fn alias_view(&self) -> Map<Seq<char>, Seq<char>> {
        self.aliases@
    }

    /// The configured debug flag.
    pub closed spec fn spec_debug(&self) -> bool {
        self.debug
    }

    pub fn new(config: Config) -> (v: TailwindExpandVisitor)
        ensures
            v.alias_view() == config.aliases@,
            v.spec_debug() == config.debug,
    {
        TailwindExpandVisitor { aliases: config.aliases, debug: config.debug }
    }

    /// Whether the debug flag was set.
    pub fn debug_enabled(&self) -> (b: bool)
        ensures
            b == self.spec_debug(),
    {
        self.debug
    }

    /// Expands a single token: the first matching rule of
    /// [`expand_token_str`] decides the result, and the second component
    /// reports the full original token exactly when expansion occurred.
    pub fn expand_token(&self, token: &str) -> (r: (String, Option<String>))
        ensures
            r.0@ == expand_token_str(self.alias_view(), token@),
            match r.1 {
                Some(name) => expand_token_matched(self.alias_view(), token@) && name@ == token@,
                None => !expand_token_matched(self.alias_view(), token@),
            },
    {
        let ghost m = self.alias_view();
        let ghost t = token@;
        let n = token.unicode_len();
        proof {
            lemma_last_colon(t);
        }
        match find_last_colon(token) {
            Some(ci) => {
                let prefix = token.substring_char(0, ci + 1);
                let rest_all = token.substring_char(ci + 1, n);
                let rn = rest_all.unicode_len();
                let important = rn > 0 && rest_all.get_char(0) == '!';
                let base = if important {
                    rest_all.substring_char(1, rn)
                } else {
                    rest_all
                };
                proof {
                    assert(rest_all@ == variant_rest_raw(t));
                    assert(important == variant_has_important(t));
                    if important {
                        assert(base@ =~= variant_base(t));
                    }
                    assert(base@ == variant_base(t));
                    assert(prefix@ == variant_prefix_of(t));
                }
                match self.aliases.get(base) {
                    Some(value) => {
                        let expanded = expand_alias_value(value.as_str(), prefix, important);
                        proof {
                            assert(variant_rule_applies(m, t));
                            let f1 = |u: Seq<char>| expanded_utility(
                                prefix@,
                                important,
                                u,
                            );
                            let f2 = |u: Seq<char>| expanded_utility(
                                variant_prefix_of(t),
                                variant_has_important(t),
                                u,
                            );
                            assert(f1 =~= f2);
                            assert(value@ == m[variant_base(t)]);
                        }
                        return (expanded, Some(token.to_owned()));
                    },
                    None => {
                        proof {
                            assert(!variant_rule_applies(m, t));
                        }
                    },
                }
            },
            None => {
                proof {
                    assert(!variant_rule_applies(m, t));
                }
            },
        }
        if n > 0 && token.get_char(0) == '!' {
            let rest = token.substring_char(1, n);
            match self.aliases.get(rest) {
                Some(value) => {
                    proof {
                        reveal_strlit("");
                    }
                    let expanded = expand_alias_value(value.as_str(), "", true);
                    proof {
                        assert(important_rule_applies(m, t));
                        assert(""@ =~= Seq::<char>::empty());
                        let f1 = |u: Seq<char>| expanded_utility(""@, true, u);
                        let f2 = |u: Seq<char>| expanded_utility(Seq::empty(), true, u);
                        assert(f1 =~= f2);
                        assert(rest@ == t.subrange(1, t.len() as int));
                    }
                    return (expanded, Some(token.to_owned()));
                },
                None => {},
            }
        }
        match self.aliases.get(token) {
            Some(value) => (value.clone(), Some(token.to_owned())),
            None => (token.to_owned(), None),
        }
    }

    /// Expands every whitespace-separated token of a className string and
    /// joins the results with single spaces; also returns, without
    /// duplicates, the original tokens on which expansion occurred.
    pub fn expand_class_name(&self, class_name: &str) -> (r: (String, Vec<String>))
        ensures
            r.0@ == expand_class_name_str(self.alias_view(), class_name@),
            views_of(r.1@).no_duplicates(),
            views_of(r.1@).to_set() =~= matched_token_set(self.alias_view(), class_name@),
    {
        proof {
            reveal_strlit(" ");
            assert(" "@ =~= seq![' ']);
        }
        let ghost m = self.alias_view();
        let ghost s = class_name@;
        let toks = split_whitespace_tokens(class_name);
        let ghost f = |t: Seq<char>| expand_token_str(m, t);
        let ghost parts = split_ws(s).map_values(f);
        let mut out = String::new();
        let mut names: Vec<String> = Vec::new();
        let mut k: usize = 0;
        let nt = toks.len();
        while k < nt
            invariant
                0 <= k <= nt,
                nt == toks@.len(),
                m == self.alias_view(),
                s == class_name@,
                views_of(toks@) =~= split_ws(s),
                f == (|t: Seq<char>| expand_token_str(m, t)),
                parts == split_ws(s).map_values(f),
                out@ == join_sp(parts.take(k as int)),
                views_of(names@).no_duplicates(),
                forall|x: Seq<char>| #[trigger] views_of(names@).contains(x) <==> exists|j: int|
                    0 <= j < k && split_ws(s)[j] == x && expand_token_matched(m, x),
            decreases nt - k,
        {
            proof {
                reveal_strlit(" ");
                assert(" "@ =~= seq![' ']);
            }
            let (expanded, matched) = self.expand_token(toks[k].as_str());
            proof {
                assert(views_of(toks@)[k as int] == toks@[k as int]@);
                assert(expanded@ == f(split_ws(s)[k as int]));
                assert(parts.take(k + 1) =~= parts.take(k as int).push(expanded@));
                lemma_join_sp_push(parts.take(k as int), expanded@);
            }
            if k > 0 {
                out.append(" ");
            }
            out.append(expanded.as_str());
            proof {
                if k == 0 {
                    assert(Seq::<char>::empty() + expanded@ =~= expanded@);
                }
            }
            let ghost tok_k = split_ws(s)[k as int];
            match matched {
                Some(name) => {
                    proof {
                        assert(name@ == tok_k);
                        assert(expand_token_matched(m, tok_k));
                    }
                    if !contains_string(&names, name.as_str()) {
                        let ghost old_views = views_of(names@);
                        proof {
                            crate::text::lemma_views_of_push(names@, name);
                        }
                        names.push(name);
                        proof {
                            let nv = views_of(names@);
                            assert(nv =~= old_views.push(tok_k));
                            assert forall|i: int, j: int|
                                0 <= i < nv.len() && 0 <= j < nv.len() && i != j implies nv[i]
                                != nv[j] by {
                                if i < old_views.len() && j < old_views.len() {
                                    assert(old_views[i] != old_views[j]);
                                } else if i < old_views.len() {
                                    assert(old_views.contains(old_views[i]));
                                } else if j < old_views.len() {
                                    assert(old_views.contains(old_views[j]));
                                }
                            }
                            assert forall|x: Seq<char>| #[trigger] nv.contains(x) implies exists|
                                j: int,
                            |
                                0 <= j < k + 1 && split_ws(s)[j] == x && expand_token_matched(
                                    m,
                                    x,
                                ) by {
                                let i = choose|i: int| 0 <= i < nv.len() && nv[i] == x;
                                if i < old_views.len() {
                                    assert(old_views.contains(x));
                                } else {
                                    assert(split_ws(s)[k as int] == x);
                                }
                            }
                            assert forall|x: Seq<char>|
                                (exists|j: int|
                                    0 <= j < k + 1 && split_ws(s)[j] == x
                                        && expand_token_matched(m, x)) implies #[trigger] nv
                                .contains(x) by {
                                let j = choose|j: int|
                                    0 <= j < k + 1 && split_ws(s)[j] == x
                                        && expand_token_matched(m, x);
                                if j < k {
                                    assert(old_views.contains(x));
                                    let i = choose|i: int|
                                        0 <= i < old_views.len() && old_views[i] == x;
                                    assert(nv[i] == x);
                                } else {
                                    assert(nv.last() == x);
                                }
                            }
                        }
                    } else {
                        proof {
                            let nv = views_of(names@);
                            assert forall|x: Seq<char>|
                                (exists|j: int|
                                    0 <= j < k + 1 && split_ws(s)[j] == x
                                        && expand_token_matched(m, x)) implies #[trigger] nv
                                .contains(x) by {
                                let j = choose|j: int|
                                    0 <= j < k + 1 && split_ws(s)[j] == x
                                        && expand_token_matched(m, x);
                                if j == k {
                                    assert(x == tok_k);
                                }
                            }
                        }
                    }
                },
                None => {
                    proof {
                        assert(!expand_token_matched(m, tok_k));
                        let nv = views_of(names@);
                        assert forall|x: Seq<char>|
                            (exists|j: int|
                                0 <= j < k + 1 && split_ws(s)[j] == x && expand_token_matched(
                                    m,
                                    x,
                                )) implies #[trigger] nv.contains(x) by {
                            let j = choose|j: int|
                                0 <= j < k + 1 && split_ws(s)[j] == x && expand_token_matched(
                                    m,
                                    x,
                                );
                            assert(j < k);
                        }
                    }
                },
            }
            k = k + 1;
        }
        proof {
            assert(parts.take(nt as int) =~= parts);
            assert forall|x: Seq<char>| #[trigger] views_of(names@).to_set().contains(x)
                <==> matched_token_set(m, s).contains(x) by {
                if views_of(names@).contains(x) {
                    assert(split_ws(s).contains(x));
                }
                if split_ws(s).to_set().contains(x) && expand_token_matched(m, x) {
                    let j = choose|j: int| 0 <= j < split_ws(s).len() && split_ws(s)[j] == x;
                    assert(views_of(names@).contains(x));
                }
            }
        }
        (out, names)
    }
}

/// Whether an attribute name is one of the className-like attributes the
/// transform rewrites: `className`, `class` or `classes`, exactly.
pub fn is_class_attr_name(name: &str) -> (r: bool)
    ensures
        r == (name@ == "className"@ || name@ == "class"@ || name@ == "classes"@),
{
    str_eq(name, "className") || str_eq(name, "class") || str_eq(name, "classes")
}

} // verus!
