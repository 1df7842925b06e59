use vstd::prelude::*;

verus! {

/// Relies on String::push: appends the given character to the end of the
/// string.
#[verifier::external_body]
pub(crate) fn push_char(s: &mut String, c: char)
    ensures
        final(s)@ == old(s)@.push(c),
{
    s.push(c);
}

/// The whitespace characters recognised between tokens.
pub open spec fn is_ws(c: char) -> bool {
    c == ' ' || c == '\t' || c == '\n' || c == '\r'
}

/// Executable form of `is_ws`.
pub fn ws_char(c: char) -> (r: bool)
    ensures
        r == is_ws(c),
{
    c == ' ' || c == '\t' || c == '\n' || c == '\r'
}

/// Character-for-character string equality.
pub fn str_eq(a: &str, b: &str) -> (r: bool)
    ensures
        r == (a@ == b@),
{
    let alen = a.unicode_len();
    let blen = b.unicode_len();
    if alen != blen {
        return false;
    }
    let mut i: usize = 0;
    while i < alen
        invariant
            alen == a@.len(),
            blen == b@.len(),
            alen == blen,
            i <= alen,
            forall|k: int| 0 <= k < i ==> a@[k] == b@[k],
        decreases alen - i,
    {
        if a.get_char(i) != b.get_char(i) {
            return false;
        }
        i = i + 1;
    }
    proof {
        assert(a@ =~= b@);
    }
    true
}

/// Whether `p` is a prefix of `s`.
pub open spec fn has_prefix(s: Seq<char>, p: Seq<char>) -> bool {
    p.len() <= s.len() && s.subrange(0, p.len() as int) == p
}

/// Executable form of `has_prefix`.
pub fn starts_with_str(s: &str, p: &str) -> (r: bool)
    ensures
        r == has_prefix(s@, p@),
{
    let pn = p.unicode_len();
    let sn = s.unicode_len();
    if pn > sn {
        return false;
    }
    let mut i: usize = 0;
    while i < pn
        invariant
            pn == p@.len(),
            sn == s@.len(),
            pn <= sn,
            i <= pn,
            forall|k: int| 0 <= k < i ==> s@[k] == p@[k],
        decreases pn - i,
    {
        if s.get_char(i) != p.get_char(i) {
            proof {
                if has_prefix(s@, p@) {
                    assert(s@.subrange(0, pn as int)[i as int] == p@[i as int]);
                }
            }
            return false;
        }
        i = i + 1;
    }
    proof {
        assert(s@.subrange(0, pn as int) =~= p@);
    }
    true
}

/// The first index at or after `i` holding `c`, or the length of `s` where
/// none does.
pub open spec fn find_from(s: Seq<char>, i: int, c: char) -> int
    decreases s.len() - i,
{
    if i >= s.len() {
        s.len() as int
    } else if s[i] == c {
        i
    } else {
        find_from(s, i + 1, c)
    }
}

pub proof fn lemma_find_from(s: Seq<char>, i: int, c: char)
    requires
        0 <= i <= s.len(),
    ensures
        i <= find_from(s, i, c) <= s.len(),
        find_from(s, i, c) < s.len() ==> s[find_from(s, i, c)] == c,
        forall|k: int| i <= k < find_from(s, i, c) ==> s[k] != c,
    decreases s.len() - i,
{
    if i < s.len() && s[i] != c {
        lemma_find_from(s, i + 1, c);
    }
}

/// Executable form of `find_from`.
pub fn find_char(s: &str, from: usize, c: char) -> (r: usize)
    requires
        from <= s@.len(),
    ensures
        r == find_from(s@, from as int, c),
        from <= r <= s@.len(),
{
    proof {
        lemma_find_from(s@, from as int, c);
    }
    let n = s.unicode_len();
    let mut j = from;
    while j < n
        invariant
            from <= j <= n,
            n == s@.len(),
            find_from(s@, from as int, c) == find_from(s@, j as int, c),
        decreases n - j,
    {
        if s.get_char(j) == c {
            return j;
        }
        j = j + 1;
    }
    j
}

/// The first index at or after `i` holding a non-whitespace character, or
/// the length of `s`.
pub open spec fn skip_ws_from(s: Seq<char>, i: int) -> int
    decreases s.len() - i,
{
    if i >= s.len() {
        s.len() as int
    } else if is_ws(s[i]) {
        skip_ws_from(s, i + 1)
    } else {
        i
    }
}

pub proof fn lemma_skip_ws(s: Seq<char>, i: int)
    requires
        0 <= i <= s.len(),
    ensures
        i <= skip_ws_from(s, i) <= s.len(),
        skip_ws_from(s, i) < s.len() ==> !is_ws(s[skip_ws_from(s, i)]),
        forall|k: int| i <= k < skip_ws_from(s, i) ==> is_ws(s[k]),
    decreases s.len() - i,
{
    if i < s.len() && is_ws(s[i]) {
        lemma_skip_ws(s, i + 1);
    }
}

/// Executable form of `skip_ws_from`.
pub fn skip_ws_exec(s: &str, i: usize) -> (r: usize)
    requires
        i <= s@.len(),
    ensures
        r == skip_ws_from(s@, i as int),
        i <= r <= s@.len(),
    decreases s@.len() - i,
{
    proof {
        lemma_skip_ws(s@, i as int);
    }
    let n = s.unicode_len();
    if i == n {
        return i;
    }
    if ws_char(s.get_char(i)) {
        skip_ws_exec(s, i + 1)
    } else {
        i
    }
}

/// The end of the token beginning at `i`: the first index at or after `i`
/// holding whitespace, or the length of `s`.
pub open spec fn token_end(s: Seq<char>, i: int) -> int
    decreases s.len() - i,
{
    if i >= s.len() {
        s.len() as int
    } else if is_ws(s[i]) {
        i
    } else {
        token_end(s, i + 1)
    }
}

pub proof fn lemma_token_end(s: Seq<char>, i: int)
    requires
        0 <= i <= s.len(),
    ensures
        i <= token_end(s, i) <= s.len(),
        forall|k: int| i <= k < token_end(s, i) ==> !is_ws(s[k]),
    decreases s.len() - i,
{
    if i < s.len() && !is_ws(s[i]) {
        lemma_token_end(s, i + 1);
    }
}

/// Executable form of `token_end`.
pub fn token_end_exec(s: &str, i: usize) -> (r: usize)
    requires
        i <= s@.len(),
    ensures
        r == token_end(s@, i as int),
        i <= r <= s@.len(),
    decreases s@.len() - i,
{
    proof {
        lemma_token_end(s@, i as int);
    }
    let n = s.unicode_len();
    if i == n {
        return i;
    }
    if ws_char(s.get_char(i)) {
        i
    } else {
        token_end_exec(s, i + 1)
    }
}

/// The start of the `k`-th whitespace-delimited token at or after `i`
/// (counting from zero); at or past the end of `s` where there is no such
/// token.
pub open spec fn nth_token_start(s: Seq<char>, i: int, k: nat) -> int
    decreases k,
{
    if k == 0 {
        skip_ws_from(s, i)
    } else {
        nth_token_start(s, token_end(s, skip_ws_from(s, i)), (k - 1) as nat)
    }
}


pub proof fn lemma_nth_token_start_bounds(s: Seq<char>, i: int, k: nat)
    requires
        0 <= i <= s.len(),
    ensures
        i <= nth_token_start(s, i, k) <= s.len(),
    decreases k,
{
    lemma_skip_ws(s, i);
    if k > 0 {
        lemma_token_end(s, skip_ws_from(s, i));
        lemma_nth_token_start_bounds(s, token_end(s, skip_ws_from(s, i)), (k - 1) as nat);
    }
}

/// The `k`-th whitespace-delimited token of `s`, where `s` has one.
pub open spec fn nth_token_model(s: Seq<char>, k: nat) -> Option<Seq<char>> {
    let st = nth_token_start(s, 0, k);
    if st < s.len() {
        Some(s.subrange(st, token_end(s, st)))
    } else {
        None
    }
}

/// The `k`-th whitespace-delimited token, or `None` where `s` has fewer than
/// `k + 1` tokens.
pub fn nth_token<'a>(s: &'a str, k: usize) -> (r: Option<&'a str>)
    ensures
        match r {
            Some(t) => nth_token_model(s@, k as nat) == Some(t@),
            None => nth_token_model(s@, k as nat) is None,
        },
{
    let mut i: usize = 0;
    let mut c: usize = 0;
    while c < k
        invariant
            c <= k,
            i <= s@.len(),
            nth_token_start(s@, 0, k as nat) == nth_token_start(s@, i as int, (k - c) as nat),
        decreases k - c,
    {
        let a = skip_ws_exec(s, i);
        let e = token_end_exec(s, a);
        i = e;
        c = c + 1;
    }
    let st = skip_ws_exec(s, i);
    proof {
        assert(nth_token_start(s@, i as int, 0) == skip_ws_from(s@, i as int));
    }
    if st < s.unicode_len() {
        let e = token_end_exec(s, st);
        Some(s.substring_char(st, e))
    } else {
        None
    }
}

/// `s` with leading and trailing whitespace removed.
pub open spec fn spec_trim(s: Seq<char>) -> Seq<char> {
    let a = skip_ws_from(s, 0);
    let b = trim_end_idx(s, s.len() as int);
    if a < b {
        s.subrange(a, b)
    } else {
        Seq::empty()
    }
}

/// The end of `s` with trailing whitespace before `j` removed.
pub open spec fn trim_end_idx(s: Seq<char>, j: int) -> int
    decreases j,
{
    if j <= 0 {
        0
    } else if is_ws(s[j - 1]) {
        trim_end_idx(s, j - 1)
    } else {
        j
    }
}

pub proof fn lemma_trim_end(s: Seq<char>, j: int)
    requires
        0 <= j <= s.len(),
    ensures
        0 <= trim_end_idx(s, j) <= j,
        trim_end_idx(s, j) > 0 ==> !is_ws(s[trim_end_idx(s, j) - 1]),
        forall|k: int| trim_end_idx(s, j) <= k < j ==> is_ws(s[k]),
    decreases j,
{
    if j > 0 && is_ws(s[j - 1]) {
        lemma_trim_end(s, j - 1);
    }
}

/// Executable form of `trim_end_idx`.
pub fn trim_end_exec(s: &str, j: usize) -> (r: usize)
    requires
        j <= s@.len(),
    ensures
        r == trim_end_idx(s@, j as int),
        r <= j,
    decreases j,
{
    proof {
        lemma_trim_end(s@, j as int);
    }
    if j == 0 {
        return 0;
    }
    if ws_char(s.get_char(j - 1)) {
        trim_end_exec(s, j - 1)
    } else {
        j
    }
}

/// `s` with leading and trailing whitespace removed.
pub fn trim<'a>(s: &'a str) -> (r: &'a str)
    ensures
        r@ == spec_trim(s@),
{
    let n = s.unicode_len();
    let a = skip_ws_exec(s, 0);
    let b = trim_end_exec(s, n);
    if a < b {
        s.substring_char(a, b)
    } else {
        s.substring_char(0, 0)
    }
}

/// `t` without its trailing statement-separator characters.
pub open spec fn strip_semi(t: Seq<char>) -> Seq<char>
    decreases t.len(),
{
    if t.len() > 0 && t.last() == ';' {
        strip_semi(t.drop_last())
    } else {
        t
    }
}

fn strip_semi_to(s: &str, e: usize) -> (r: &str)
    requires
        e <= s@.len(),
    ensures
        r@ == strip_semi(s@.take(e as int)),
    decreases e,
{
    if e == 0 {
        let r = s.substring_char(0, 0);
        proof {
            assert(s@.take(0) =~= Seq::<char>::empty());
        }
        r
    } else if s.get_char(e - 1) == ';' {
        proof {
            assert(s@.take(e as int).drop_last() =~= s@.take(e as int - 1));
            assert(s@.take(e as int).last() == ';');
        }
        strip_semi_to(s, e - 1)
    } else {
        let r = s.substring_char(0, e);
        proof {
            assert(s@.take(e as int).last() != ';');
            assert(s@.subrange(0, e as int) =~= s@.take(e as int));
        }
        r
    }
}

/// `s` without its trailing statement-separator characters.
pub fn strip_trailing_semis<'a>(s: &'a str) -> (r: &'a str)
    ensures
        r@ == strip_semi(s@),
{
    let n = s.unicode_len();
    let r = strip_semi_to(s, n);
    proof {
        assert(s@.take(n as int) =~= s@);
    }
    r
}

/// `t` without its quote characters.
pub open spec fn strip_quotes(t: Seq<char>) -> Seq<char>
    decreases t.len(),
{
    if t.len() == 0 {
        Seq::empty()
    } else {
        strip_quotes(t.drop_last()) + (if t.last() == '\'' {
            Seq::<char>::empty()
        } else {
            seq![t.last()]
        })
    }
}

/// A copy of `s` without its quote characters.
pub fn strip_quote_chars(s: &str) -> (r: String)
    ensures
        r@ == strip_quotes(s@),
{
    let n = s.unicode_len();
    let mut out = String::new();
    let mut i: usize = 0;
    while i < n
        invariant
            i <= n,
            n == s@.len(),
            out@ == strip_quotes(s@.take(i as int)),
        decreases n - i,
    {
        let c = s.get_char(i);
        if c != '\'' {
            push_char(&mut out, c);
        }
        i = i + 1;
        proof {
            assert(s@.take(i as int).drop_last() =~= s@.take(i as int - 1));
            assert(s@.take(i as int).last() == s@[i as int - 1]);
            assert(out@ =~= strip_quotes(s@.take(i as int)));
        }
    }
    proof {
        assert(s@.take(n as int) =~= s@);
    }
    out
}

/// The segments of `s` between statement-separator characters, in order,
/// separators removed.
pub open spec fn split_semis(s: Seq<char>) -> Seq<Seq<char>> {
    split_semis_from(s, 0)
}

pub open spec fn split_semis_from(s: Seq<char>, i: int) -> Seq<Seq<char>>
    decreases s.len() - i
        when 0 <= i <= s.len()
        via split_semis_decreases
{
    let j = find_from(s, i, ';');
    if j >= s.len() {
        seq![s.subrange(i, s.len() as int)]
    } else {
        seq![s.subrange(i, j)] + split_semis_from(s, j + 1)
    }
}

#[via_fn]
proof fn split_semis_decreases(s: Seq<char>, i: int) {
    if 0 <= i <= s.len() {
        lemma_find_from(s, i, ';');
    }
}

fn split_semis_rec(s: &str, i: usize, out: &mut Vec<String>)
    requires
        i <= s@.len(),
    ensures
        final(out)@.map_values(|t: String| t@)
            == old(out)@.map_values(|t: String| t@) + split_semis_from(s@, i as int),
    decreases s@.len() - i,
{
    let ghost base = out@.map_values(|t: String| t@);
    let j = find_char(s, i, ';');
    proof {
        lemma_find_from(s@, i as int, ';');
    }
    let n = s.unicode_len();
    if j == n {
        let seg = s.substring_char(i, n).to_owned();
        out.push(seg);
        proof {
            assert(out@.map_values(|t: String| t@)
                =~= base + split_semis_from(s@, i as int));
        }
    } else {
        let seg = s.substring_char(i, j).to_owned();
        out.push(seg);
        proof {
            assert(out@.map_values(|t: String| t@)
                =~= base.push(s@.subrange(i as int, j as int)));
        }
        split_semis_rec(s, j + 1, out);
        proof {
            assert(base.push(s@.subrange(i as int, j as int))
                + split_semis_from(s@, j as int + 1)
                =~= base + split_semis_from(s@, i as int));
        }
    }
}

/// The semicolon-separated segments of `s`.
pub fn split_statements(s: &str) -> (r: Vec<String>)
    ensures
        r@.map_values(|t: String| t@) == split_semis(s@),
{
    let mut out: Vec<String> = Vec::new();
    proof {
        assert(out@.map_values(|t: String| t@) =~= Seq::<Seq<char>>::empty());
    }
    split_semis_rec(s, 0, &mut out);
    out
}


/// Skipping whitespace within the suffix of a concatenation ignores the
/// prefix.
pub proof fn lemma_skip_ws_offset(p: Seq<char>, t: Seq<char>, j: int)
    requires
        0 <= j,
    ensures
        skip_ws_from(p + t, p.len() + j) == p.len() + skip_ws_from(t, j),
    decreases t.len() - j,
{
    let s = p + t;
    if j < t.len() {
        assert(s[p.len() + j] == t[j]);
        if is_ws(t[j]) {
            lemma_skip_ws_offset(p, t, j + 1);
        }
    }
}

/// Finding a token's end within the suffix of a concatenation ignores the
/// prefix.
pub proof fn lemma_token_end_offset(p: Seq<char>, t: Seq<char>, j: int)
    requires
        0 <= j,
    ensures
        token_end(p + t, p.len() + j) == p.len() + token_end(t, j),
    decreases t.len() - j,
{
    let s = p + t;
    if j < t.len() {
        assert(s[p.len() + j] == t[j]);
        if !is_ws(t[j]) {
            lemma_token_end_offset(p, t, j + 1);
        }
    }
}

/// Finding a character within the suffix of a concatenation ignores the
/// prefix.
pub proof fn lemma_find_offset(p: Seq<char>, t: Seq<char>, j: int, c: char)
    requires
        0 <= j,
    ensures
        find_from(p + t, p.len() + j, c) == p.len() + find_from(t, j, c),
    decreases t.len() - j,
{
    let s = p + t;
    if j < t.len() {
        assert(s[p.len() + j] == t[j]);
        if t[j] != c {
            lemma_find_offset(p, t, j + 1, c);
        }
    }
}

/// A token that begins inside an all-non-whitespace prefix runs to the end
/// of the first token of the suffix.
pub proof fn lemma_token_end_through(p: Seq<char>, t: Seq<char>, i: int)
    requires
        0 <= i <= p.len(),
        forall|k: int| i <= k < p.len() ==> !is_ws(p[k]),
    ensures
        token_end(p + t, i) == p.len() + token_end(t, 0),
    decreases p.len() - i,
{
    if i < p.len() {
        assert((p + t)[i] == p[i]);
        lemma_token_end_through(p, t, i + 1);
    } else {
        lemma_token_end_offset(p, t, 0);
    }
}

/// A search that begins inside a prefix free of the sought character finds
/// it where the suffix does.
pub proof fn lemma_find_through(p: Seq<char>, t: Seq<char>, i: int, c: char)
    requires
        0 <= i <= p.len(),
        forall|k: int| i <= k < p.len() ==> p[k] != c,
    ensures
        find_from(p + t, i, c) == p.len() + find_from(t, 0, c),
    decreases p.len() - i,
{
    if i < p.len() {
        assert((p + t)[i] == p[i]);
        lemma_find_through(p, t, i + 1, c);
    } else {
        lemma_find_offset(p, t, 0, c);
    }
}

/// Token positions within the suffix of a concatenation ignore the prefix.
pub proof fn lemma_nth_token_offset(p: Seq<char>, t: Seq<char>, j: int, k: nat)
    requires
        0 <= j,
    ensures
        nth_token_start(p + t, p.len() + j, k) == p.len() + nth_token_start(t, j, k),
    decreases k,
{
    lemma_skip_ws_offset(p, t, j);
    if k > 0 {
        let a = skip_ws_from(t, j);
        assert(a >= 0) by {
            if j <= t.len() {
                lemma_skip_ws(t, j);
            }
        }
        lemma_token_end_offset(p, t, a);
        let e = token_end(t, a);
        assert(e >= 0) by {
            if a <= t.len() {
                lemma_token_end(t, a);
            }
        }
        lemma_nth_token_offset(p, t, e, (k - 1) as nat);
    }
}

/// A subrange of the suffix of a concatenation is the suffix's subrange.
pub proof fn lemma_subrange_offset(p: Seq<char>, t: Seq<char>, a: int, b: int)
    requires
        0 <= a <= b <= t.len(),
    ensures
        (p + t).subrange(p.len() + a, p.len() + b) == t.subrange(a, b),
{
    assert((p + t).subrange(p.len() + a, p.len() + b) =~= t.subrange(a, b));
}

} // verus!
