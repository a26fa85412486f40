//! Character classes and elementary text scanning, shared by the extractor,
//! the resolver and the token expander.

use vstd::prelude::*;

verus! {

/// The whitespace characters recognized when splitting utility lists and
/// class name strings: the ASCII whitespace set.
pub open spec fn is_ws_char(c: char) -> bool {
    c == ' ' || c == '\t' || c == '\n' || c == '\r' || c == '\u{c}'
}

/// ASCII decimal digit.
pub open spec fn is_digit_char(c: char) -> bool {
    48 <= c as u32 && c as u32 <= 57
}

/// ASCII uppercase letter.
pub open spec fn is_upper_char(c: char) -> bool {
    65 <= c as u32 && c as u32 <= 90
}

/// ASCII lowercase letter.
pub open spec fn is_lower_char(c: char) -> bool {
    97 <= c as u32 && c as u32 <= 122
}

/// ASCII alphanumeric character: the characters alias names are made of.
pub open spec fn is_alnum_char(c: char) -> bool {
    is_digit_char(c) || is_upper_char(c) || is_lower_char(c)
}

/// Executable check for [`is_ws_char`].
pub fn is_ws(c: char) -> (r: bool)
    ensures
        r == is_ws_char(c),
{
    c == ' ' || c == '\t' || c == '\n' || c == '\r' || c == '\u{c}'
}

/// Executable check for [`is_alnum_char`].
pub fn is_alnum(c: char) -> (r: bool)
    ensures
        r == is_alnum_char(c),
{
    let u = c as u32;
    (48 <= u && u <= 57) || (65 <= u && u <= 90) || (97 <= u && u <= 122)
}

/// The views of a sequence of strings.
pub open spec fn views_of(ss: Seq<String>) -> Seq<Seq<char>> {
    ss.map_values(|x: String| x@)
}

pub proof fn lemma_views_of_push(ss: Seq<String>, x: String)
    ensures
        views_of(ss.push(x)) =~= views_of(ss).push(x@),
{
}

/// Index of the first occurrence of `c` in `s` at or after `from`;
/// `s.len()` when there is none.
pub open spec fn scan_to_char(s: Seq<char>, from: int, c: char) -> int
    decreases s.len() - from,
    when 0 <= from
{
    if from >= s.len() {
        s.len() as int
    } else if s[from] == c {
        from
    } else {
        scan_to_char(s, from + 1, c)
    }
}

pub proof fn lemma_scan_to_char(s: Seq<char>, from: int, c: char)
    requires
        0 <= from <= s.len(),
    ensures
        from <= scan_to_char(s, from, c) <= s.len(),
        scan_to_char(s, from, c) < s.len() ==> s[scan_to_char(s, from, c)] == c,
        forall|i: int| from <= i < scan_to_char(s, from, c) ==> s[i] != c,
    decreases s.len() - from,
{
    if from < s.len() && s[from] != c {
        lemma_scan_to_char(s, from + 1, c);
    }
}

/// Index of the first non-whitespace character at or after `from`;
/// `s.len()` when the rest is all whitespace.
pub open spec fn skip_ws_idx(s: Seq<char>, from: int) -> int
    decreases s.len() - from,
    when 0 <= from
{
    if from >= s.len() {
        s.len() as int
    } else if is_ws_char(s[from]) {
        skip_ws_idx(s, from + 1)
    } else {
        from
    }
}

pub proof fn lemma_skip_ws_idx(s: Seq<char>, from: int)
    requires
        0 <= from <= s.len(),
    ensures
        from <= skip_ws_idx(s, from) <= s.len(),
        skip_ws_idx(s, from) < s.len() ==> !is_ws_char(s[skip_ws_idx(s, from)]),
        forall|i: int| from <= i < skip_ws_idx(s, from) ==> is_ws_char(s[i]),
    decreases s.len() - from,
{
    if from < s.len() && is_ws_char(s[from]) {
        lemma_skip_ws_idx(s, from + 1);
    }
}

/// Index of the first whitespace character at or after `from`;
/// `s.len()` when the rest has none.  Marks the end of the whitespace-free
/// token that starts at `from`.
pub open spec fn token_end_idx(s: Seq<char>, from: int) -> int
    decreases s.len() - from,
    when 0 <= from
{
    if from >= s.len() {
        s.len() as int
    } else if !is_ws_char(s[from]) {
        token_end_idx(s, from + 1)
    } else {
        from
    }
}

pub proof fn lemma_token_end_idx(s: Seq<char>, from: int)
    requires
        0 <= from <= s.len(),
    ensures
        from <= token_end_idx(s, from) <= s.len(),
        token_end_idx(s, from) < s.len() ==> is_ws_char(s[token_end_idx(s, from)]),
        forall|i: int| from <= i < token_end_idx(s, from) ==> !is_ws_char(s[i]),
    decreases s.len() - from,
{
    if from < s.len() && !is_ws_char(s[from]) {
        lemma_token_end_idx(s, from + 1);
    }
}

/// Index of the first character at or after `from` that is not
/// alphanumeric; `s.len()` when the rest is all alphanumeric.  Marks the
/// end of the alias or modifier name that starts at `from`.
pub open spec fn alnum_end_idx(s: Seq<char>, from: int) -> int
    decreases s.len() - from,
    when 0 <= from
{
    if from >= s.len() {
        s.len() as int
    } else if is_alnum_char(s[from]) {
        alnum_end_idx(s, from + 1)
    } else {
        from
    }
}

pub proof fn lemma_alnum_end_idx(s: Seq<char>, from: int)
    requires
        0 <= from <= s.len(),
    ensures
        from <= alnum_end_idx(s, from) <= s.len(),
        alnum_end_idx(s, from) < s.len() ==> !is_alnum_char(s[alnum_end_idx(s, from)]),
        forall|i: int| from <= i < alnum_end_idx(s, from) ==> is_alnum_char(s[i]),
    decreases s.len() - from,
{
    if from < s.len() && is_alnum_char(s[from]) {
        lemma_alnum_end_idx(s, from + 1);
    }
}

/// Index of the last colon in `s`, or `-1` when `s` has none.
pub open spec fn last_colon(s: Seq<char>) -> int
    decreases s.len(),
{
    if s.len() == 0 {
        -1
    } else if s[s.len() - 1] == ':' {
        s.len() - 1
    } else {
        last_colon(s.drop_last())
    }
}

pub proof fn lemma_last_colon(s: Seq<char>)
    ensures
        -1 <= last_colon(s) < s.len(),
        last_colon(s) >= 0 ==> s[last_colon(s)] == ':',
        forall|i: int| last_colon(s) < i < s.len() ==> s[i] != ':',
    decreases s.len(),
{
    if s.len() > 0 && s[s.len() - 1] != ':' {
        lemma_last_colon(s.drop_last());
        assert(forall|i: int| 0 <= i < s.len() - 1 ==> s.drop_last()[i] == s[i]);
    }
}

/// The length of `s` once trailing whitespace is removed.
pub open spec fn rstrip_idx(s: Seq<char>) -> int
    decreases s.len(),
{
    if s.len() == 0 {
        0
    } else if is_ws_char(s[s.len() - 1]) {
        rstrip_idx(s.drop_last())
    } else {
        s.len() as int
    }
}

pub proof fn lemma_rstrip_idx(s: Seq<char>)
    ensures
        0 <= rstrip_idx(s) <= s.len(),
        rstrip_idx(s) > 0 ==> !is_ws_char(s[rstrip_idx(s) - 1]),
        forall|i: int| rstrip_idx(s) <= i < s.len() ==> is_ws_char(s[i]),
    decreases s.len(),
{
    if s.len() > 0 && is_ws_char(s[s.len() - 1]) {
        lemma_rstrip_idx(s.drop_last());
        assert(forall|i: int| 0 <= i < s.len() - 1 ==> s.drop_last()[i] == s[i]);
    }
}

/// `s` without leading and trailing whitespace.
pub open spec fn trim_spec(s: Seq<char>) -> Seq<char> {
    let b = skip_ws_idx(s, 0);
    let e = rstrip_idx(s);
    if b <= e {
        s.subrange(b, e)
    } else {
        Seq::empty()
    }
}

/// The maximal whitespace-free tokens of `s` at or after `from`, in order.
pub open spec fn split_ws_from(s: Seq<char>, from: int) -> Seq<Seq<char>>
    decreases s.len() - from,
    when 0 <= from
    via split_ws_from_decreases
{
    let b = skip_ws_idx(s, from);
    if b >= s.len() {
        Seq::empty()
    } else {
        let e = token_end_idx(s, b);
        seq![s.subrange(b, e)] + split_ws_from(s, e)
    }
}

#[via_fn]
proof fn split_ws_from_decreases(s: Seq<char>, from: int) {
    if from <= s.len() {
        lemma_skip_ws_idx(s, from);
        let b = skip_ws_idx(s, from);
        if b < s.len() {
            lemma_token_end_idx(s, b);
            assert(token_end_idx(s, b) > b) by {
                assert(!is_ws_char(s[b]));
            }
        }
    } else {
        assert(skip_ws_idx(s, from) == s.len());
    }
}

/// The whitespace-separated tokens of `s`, in order.
pub open spec fn split_ws(s: Seq<char>) -> Seq<Seq<char>> {
    split_ws_from(s, 0)
}

/// The segments of `s` separated by colons; every segment is kept, even
/// empty ones.
pub open spec fn split_colon_from(s: Seq<char>, from: int) -> Seq<Seq<char>>
    decreases s.len() - from,
    when 0 <= from <= s.len()
    via split_colon_from_decreases
{
    let i = scan_to_char(s, from, ':');
    if i >= s.len() {
        seq![s.subrange(from, s.len() as int)]
    } else {
        seq![s.subrange(from, i)] + split_colon_from(s, i + 1)
    }
}

#[via_fn]
proof fn split_colon_from_decreases(s: Seq<char>, from: int) {
    lemma_scan_to_char(s, from, ':');
}

pub open spec fn split_colon(s: Seq<char>) -> Seq<Seq<char>> {
    split_colon_from(s, 0)
}

/// The parts joined by single spaces.
pub open spec fn join_sp(parts: Seq<Seq<char>>) -> Seq<char>
    decreases parts.len(),
{
    if parts.len() == 0 {
        Seq::empty()
    } else if parts.len() == 1 {
        parts[0]
    } else {
        parts[0] + seq![' '] + join_sp(parts.drop_first())
    }
}

pub proof fn lemma_join_sp_push(parts: Seq<Seq<char>>, p: Seq<char>)
    ensures
        parts.len() == 0 ==> join_sp(parts.push(p)) == p,
        parts.len() > 0 ==> join_sp(parts.push(p)) == join_sp(parts) + seq![' '] + p,
    decreases parts.len(),
{
    if parts.len() == 0 {
        assert(parts.push(p)[0] == p);
    } else if parts.len() == 1 {
        assert(parts.push(p).drop_first() =~= seq![p]);
        assert(join_sp(seq![p]) == p);
        assert(parts.push(p)[0] == parts[0]);
    } else {
        lemma_join_sp_push(parts.drop_first(), p);
        assert(parts.push(p).drop_first() =~= parts.drop_first().push(p));
        assert(parts.push(p)[0] == parts[0]);
    }
}

/// Executable counterpart of [`scan_to_char`].
pub fn find_char_from(s: &str, from: usize, c: char) -> (r: usize)
    requires
        from <= s@.len(),
    ensures
        r == scan_to_char(s@, from as int, c),
{
    let n = s.unicode_len();
    let mut i = from;
    while i < n
        invariant
            from <= i <= n,
            n == s@.len(),
            scan_to_char(s@, i as int, c) == scan_to_char(s@, from as int, c),
        decreases n - i,
    {
        if s.get_char(i) == c {
            return i;
        }
        i = i + 1;
    }
    i
}

/// Executable counterpart of [`skip_ws_idx`].
pub fn skip_ws_from(s: &str, from: usize) -> (r: usize)
    requires
        from <= s@.len(),
    ensures
        r == skip_ws_idx(s@, from as int),
{
    let n = s.unicode_len();
    let mut i = from;
    while i < n
        invariant
            from <= i <= n,
            n == s@.len(),
            skip_ws_idx(s@, i as int) == skip_ws_idx(s@, from as int),
        decreases n - i,
    {
        if !is_ws(s.get_char(i)) {
            return i;
        }
        i = i + 1;
    }
    i
}

/// Executable counterpart of [`token_end_idx`].
pub fn token_end_from(s: &str, from: usize) -> (r: usize)
    requires
        from <= s@.len(),
    ensures
        r == token_end_idx(s@, from as int),
{
    let n = s.unicode_len();
    let mut i = from;
    while i < n
        invariant
            from <= i <= n,
            n == s@.len(),
            token_end_idx(s@, i as int) == token_end_idx(s@, from as int),
        decreases n - i,
    {
        if is_ws(s.get_char(i)) {
            return i;
        }
        i = i + 1;
    }
    i
}

/// Executable counterpart of [`alnum_end_idx`].
pub fn alnum_end_from(s: &str, from: usize) -> (r: usize)
    requires
        from <= s@.len(),
    ensures
        r == alnum_end_idx(s@, from as int),
{
    let n = s.unicode_len();
    let mut i = from;
    while i < n
        invariant
            from <= i <= n,
            n == s@.len(),
            alnum_end_idx(s@, i as int) == alnum_end_idx(s@, from as int),
        decreases n - i,
    {
        if !is_alnum(s.get_char(i)) {
            return i;
        }
        i = i + 1;
    }
    i
}

/// Executable counterpart of [`last_colon`]: `None` when `s` has no colon.
pub fn find_last_colon(s: &str) -> (r: Option<usize>)
    ensures
        match r {
            Some(i) => i == last_colon(s@),
            None => last_colon(s@) == -1,
        },
{
    let n = s.unicode_len();
    let mut i = n;
    proof {
        assert(s@.subrange(0, n as int) =~= s@);
    }
    while i > 0
        invariant
            0 <= i <= n,
            n == s@.len(),
            last_colon(s@.subrange(0, i as int)) == last_colon(s@),
        decreases i,
    {
        if s.get_char(i - 1) == ':' {
            proof {
                let p = s@.subrange(0, i as int);
                assert(p[p.len() - 1] == ':');
            }
            return Some(i - 1);
        }
        proof {
            let p = s@.subrange(0, i as int);
            assert(p.drop_last() =~= s@.subrange(0, i - 1));
        }
        i = i - 1;
    }
    proof {
        assert(s@.subrange(0, 0) =~= Seq::<char>::empty());
    }
    None
}

/// Executable counterpart of [`rstrip_idx`]: the length of `s` once
/// trailing whitespace is removed.
pub fn rstrip_len(s: &str) -> (r: usize)
    ensures
        r as int == rstrip_idx(s@),
{
    let n = s.unicode_len();
    let mut e = n;
    proof {
        assert(s@.subrange(0, n as int) =~= s@);
    }
    loop
        invariant
            0 <= e <= n,
            n == s@.len(),
            rstrip_idx(s@.subrange(0, e as int)) == rstrip_idx(s@),
        decreases e,
    {
        if e == 0 {
            proof {
                assert(s@.subrange(0, 0) =~= Seq::<char>::empty());
            }
            return 0;
        }
        if !is_ws(s.get_char(e - 1)) {
            proof {
                let p = s@.subrange(0, e as int);
                assert(p[p.len() - 1] == s@[e - 1]);
            }
            return e;
        }
        proof {
            let p = s@.subrange(0, e as int);
            assert(p[p.len() - 1] == s@[e - 1]);
            assert(p.drop_last() =~= s@.subrange(0, e - 1));
        }
        e = e - 1;
    }
}

/// Executable counterpart of [`trim_spec`].
pub fn trim(s: &str) -> (r: String)
    ensures
        r@ == trim_spec(s@),
{
    let b = skip_ws_from(s, 0);
    let e = rstrip_len(s);
    proof {
        lemma_skip_ws_idx(s@, 0);
        lemma_rstrip_idx(s@);
    }
    if b >= e {
        proof {
            if b <= e {
                assert(s@.subrange(b as int, e as int) =~= Seq::<char>::empty());
            }
        }
        String::new()
    } else {
        s.substring_char(b, e).to_owned()
    }
}

/// Executable counterpart of [`split_ws`]: the whitespace-separated tokens
/// of `s`, in order.
pub fn split_whitespace_tokens(s: &str) -> (r: Vec<String>)
    ensures
        views_of(r@) =~= split_ws(s@),
{
    let n = s.unicode_len();
    let mut out: Vec<String> = Vec::new();
    let mut pos: usize = 0;
    proof {
        assert(views_of(out@) + split_ws_from(s@, 0) =~= split_ws_from(s@, 0));
    }
    loop
        invariant
            0 <= pos <= n,
            n == s@.len(),
            split_ws(s@) =~= views_of(out@) + split_ws_from(s@, pos as int),
        decreases n - pos,
    {
        let b = skip_ws_from(s, pos);
        proof {
            lemma_skip_ws_idx(s@, pos as int);
        }
        if b >= n {
            proof {
                assert(split_ws_from(s@, pos as int) =~= Seq::<Seq<char>>::empty());
                assert(views_of(out@) + split_ws_from(s@, pos as int) =~= views_of(out@));
            }
            return out;
        }
        let e = token_end_from(s, b);
        proof {
            lemma_token_end_idx(s@, b as int);
            assert(e > b) by {
                assert(!is_ws_char(s@[b as int]));
            }
        }
        let tok = s.substring_char(b, e).to_owned();
        proof {
            lemma_views_of_push(out@, tok);
            assert(split_ws_from(s@, pos as int) =~= seq![s@.subrange(b as int, e as int)]
                + split_ws_from(s@, e as int));
        }
        out.push(tok);
        pos = e;
    }
}

/// Executable counterpart of [`split_colon`]: the colon-separated segments
/// of `s`, empty segments included.
pub fn split_colon_segments(s: &str) -> (r: Vec<String>)
    ensures
        views_of(r@) =~= split_colon(s@),
{
    let n = s.unicode_len();
    let mut out: Vec<String> = Vec::new();
    let mut pos: usize = 0;
    proof {
        assert(views_of(out@) + split_colon_from(s@, 0) =~= split_colon_from(s@, 0));
    }
    loop
        invariant
            0 <= pos <= n,
            n == s@.len(),
            split_colon(s@) =~= views_of(out@) + split_colon_from(s@, pos as int),
        decreases n - pos,
    {
        let i = find_char_from(s, pos, ':');
        proof {
            lemma_scan_to_char(s@, pos as int, ':');
        }
        if i >= n {
            let seg = s.substring_char(pos, n).to_owned();
            proof {
                lemma_views_of_push(out@, seg);
                assert(split_colon_from(s@, pos as int) =~= seq![
                    s@.subrange(pos as int, n as int),
                ]);
            }
            out.push(seg);
            return out;
        }
        let seg = s.substring_char(pos, i).to_owned();
        proof {
            lemma_views_of_push(out@, seg);
            assert(split_colon_from(s@, pos as int) =~= seq![s@.subrange(pos as int, i as int)]
                + split_colon_from(s@, i + 1));
        }
        out.push(seg);
        pos = i + 1;
    }
}

/// Executable check whether `views_of(v@)` has `s@`.
pub fn contains_string(v: &Vec<String>, s: &str) -> (r: bool)
    ensures
        r == views_of(v@).contains(s@),
{
    let n = v.len();
    let mut i: usize = 0;
    while i < n
        invariant
            0 <= i <= n,
            n == v@.len(),
            forall|j: int| 0 <= j < i ==> views_of(v@)[j] != s@,
        decreases n - i,
    {
        if str_eq(v[i].as_str(), s) {
            proof {
                assert(views_of(v@)[i as int] == s@);
            }
            return true;
        }
        i = i + 1;
    }
    false
}

/// Equality of two string slices, decided character by character.
pub fn str_eq(a: &str, b: &str) -> (r: bool)
    ensures
        r == (a@ == b@),
{
    let na = a.unicode_len();
    let nb = b.unicode_len();
    if na != nb {
        return false;
    }
    let mut i: usize = 0;
    while i < na
        invariant
            0 <= i <= na,
            na == a@.len(),
            na == b@.len(),
            forall|j: int| 0 <= j < i ==> a@[j] == b@[j],
        decreases na - i,
    {
        if a.get_char(i) != b.get_char(i) {
            return false;
        }
        i = i + 1;
    }
    proof {
        assert(a@ =~= b@);
    }
    true
}

} // verus!
