//! Character-level text helpers the table format is built from:
//! splitting on a separator, trimming, and lexicographic comparison,
//! each with a spec-level model and a verified executable counterpart.

use vstd::prelude::*;

verus! {

/// The whitespace the format trims around stored field values.
pub open spec fn is_space(c: char) -> bool {
    c == ' ' || c == '\t' || c == '\r' || c == '\n'
}

pub fn is_space_char(c: char) -> (r: bool)
    ensures
        r == is_space(c),
{
    c == ' ' || c == '\t' || c == '\r' || c == '\n'
}

/// Index of the first occurrence of `c` in `s`, or -1 when absent.
pub open spec fn first_index_of(s: Seq<char>, c: char) -> int
    decreases s.len(),
{
    if s.len() == 0 {
        -1
    } else if s[0] == c {
        0
    } else {
        let r = first_index_of(s.drop_first(), c);
        if r < 0 {
            -1
        } else {
            r + 1
        }
    }
}

pub proof fn lemma_first_index_of_props(s: Seq<char>, c: char)
    ensures
        first_index_of(s, c) == -1 || 0 <= first_index_of(s, c) < s.len(),
        first_index_of(s, c) >= 0 ==> s[first_index_of(s, c)] == c,
        first_index_of(s, c) >= 0 ==> forall|j: int|
            0 <= j < first_index_of(s, c) ==> s[j] != c,
        first_index_of(s, c) == -1 ==> forall|j: int| 0 <= j < s.len() ==> s[j] != c,
    decreases s.len(),
{
    if s.len() == 0 {
    } else if s[0] == c {
    } else {
        lemma_first_index_of_props(s.drop_first(), c);
        let r = first_index_of(s.drop_first(), c);
        if r >= 0 {
            assert(forall|j: int| 0 <= j < r ==> s.drop_first()[j] != c);
            assert forall|j: int| 0 <= j < r + 1 implies s[j] != c by {
                if j > 0 {
                    assert(s[j] == s.drop_first()[j - 1]);
                }
            }
        } else {
            assert forall|j: int| 0 <= j < s.len() implies s[j] != c by {
                if j > 0 {
                    assert(s[j] == s.drop_first()[j - 1]);
                }
            }
        }
    }
}

/// If `c` first appears at `i`, `first_index_of` says so.
pub proof fn lemma_first_index_of_at(s: Seq<char>, c: char, i: int)
    requires
        0 <= i < s.len(),
        s[i] == c,
        forall|j: int| 0 <= j < i ==> s[j] != c,
    ensures
        first_index_of(s, c) == i,
{
    lemma_first_index_of_props(s, c);
    let f = first_index_of(s, c);
    if f == -1 {
        assert(s[i] != c);
    } else if f < i {
        assert(s[f] != c);
    } else if f > i {
        assert(s[i] != c);
    }
}

/// Splitting on a separator, as the parser sees a stored row: the pieces
/// between occurrences of `c`, empty pieces kept, always at least one piece.
pub open spec fn split_on(s: Seq<char>, c: char) -> Seq<Seq<char>>
    decreases s.len(),
{
    let i = first_index_of(s, c);
    if 0 <= i < s.len() {
        seq![s.take(i)] + split_on(s.skip(i + 1), c)
    } else {
        seq![s]
    }
}

pub proof fn lemma_split_on_no_sep(s: Seq<char>, c: char)
    requires
        forall|j: int| 0 <= j < s.len() ==> s[j] != c,
    ensures
        split_on(s, c) == seq![s],
{
    lemma_first_index_of_props(s, c);
}

/// Splitting text that starts with a separator-free piece `a` followed by
/// the separator yields `a` and then the split of the remainder.
pub proof fn lemma_split_on_prepend(a: Seq<char>, s: Seq<char>, c: char)
    requires
        forall|j: int| 0 <= j < a.len() ==> a[j] != c,
    ensures
        split_on(a + seq![c] + s, c) == seq![a] + split_on(s, c),
{
    let t = a + seq![c] + s;
    assert(t[a.len() as int] == c);
    assert forall|j: int| 0 <= j < a.len() implies t[j] != c by {
        assert(t[j] == a[j]);
    }
    lemma_first_index_of_at(t, c, a.len() as int);
    assert(t.take(a.len() as int) =~= a);
    assert(t.skip(a.len() as int + 1) =~= s);
}

pub open spec fn trim_start_if(s: Seq<char>, p: spec_fn(char) -> bool) -> Seq<char>
    decreases s.len(),
{
    if s.len() > 0 && p(s[0]) {
        trim_start_if(s.drop_first(), p)
    } else {
        s
    }
}

pub open spec fn trim_end_if(s: Seq<char>, p: spec_fn(char) -> bool) -> Seq<char>
    decreases s.len(),
{
    if s.len() > 0 && p(s.last()) {
        trim_end_if(s.drop_last(), p)
    } else {
        s
    }
}

/// What trimming a piece of a stored row means: whitespace stripped
/// from both ends.
pub open spec fn spec_trim(s: Seq<char>) -> Seq<char> {
    trim_end_if(trim_start_if(s, |c: char| is_space(c)), |c: char| is_space(c))
}

/// Stripping the border `|` characters off both ends of a data row.
pub open spec fn strip_pipes(s: Seq<char>) -> Seq<char> {
    trim_end_if(trim_start_if(s, |c: char| c == '|'), |c: char| c == '|')
}

pub proof fn lemma_trim_start_if_concat(a: Seq<char>, b: Seq<char>, p: spec_fn(char) -> bool)
    requires
        forall|j: int| 0 <= j < a.len() ==> p(a[j]),
    ensures
        trim_start_if(a + b, p) == trim_start_if(b, p),
    decreases a.len(),
{
    if a.len() == 0 {
        assert(a + b =~= b);
    } else {
        assert((a + b)[0] == a[0]);
        assert((a + b).drop_first() =~= a.drop_first() + b);
        lemma_trim_start_if_concat(a.drop_first(), b, p);
    }
}

pub proof fn lemma_trim_end_if_concat(a: Seq<char>, b: Seq<char>, p: spec_fn(char) -> bool)
    requires
        forall|j: int| 0 <= j < b.len() ==> p(b[j]),
    ensures
        trim_end_if(a + b, p) == trim_end_if(a, p),
    decreases b.len(),
{
    if b.len() == 0 {
        assert(a + b =~= a);
    } else {
        assert((a + b).last() == b.last());
        assert((a + b).drop_last() =~= a + b.drop_last());
        lemma_trim_end_if_concat(a, b.drop_last(), p);
    }
}

pub proof fn lemma_trim_start_if_id(s: Seq<char>, p: spec_fn(char) -> bool)
    requires
        s.len() == 0 || !p(s[0]),
    ensures
        trim_start_if(s, p) == s,
{
}

pub proof fn lemma_trim_end_if_id(s: Seq<char>, p: spec_fn(char) -> bool)
    requires
        s.len() == 0 || !p(s.last()),
    ensures
        trim_end_if(s, p) == s,
{
}

/// Trims whitespace from both ends, as stored field values are read.
pub fn trim_str<'a>(s: &'a str) -> (r: &'a str)
    ensures
        r@ == spec_trim(s@),
{
    let ghost p = |c: char| is_space(c);
    let n = s.unicode_len();
    let mut i: usize = 0;
    proof {
        assert(s@.skip(0) =~= s@);
    }
    while i < n && is_space_char(s.get_char(i))
        invariant
            0 <= i <= n,
            n == s@.len(),
            p == (|c: char| is_space(c)),
            trim_start_if(s@, p) == trim_start_if(s@.skip(i as int), p),
        decreases n - i,
    {
        proof {
            assert(s@.skip(i as int)[0] == s@[i as int]);
            assert(p(s@.skip(i as int)[0]));
            assert(s@.skip(i as int).drop_first() =~= s@.skip(i as int + 1));
            assert(trim_start_if(s@.skip(i as int), p) == trim_start_if(
                s@.skip(i as int + 1),
                p,
            ));
        }
        i = i + 1;
    }
    proof {
        if i < n {
            assert(s@.skip(i as int)[0] == s@[i as int]);
        }
        lemma_trim_start_if_id(s@.skip(i as int), p);
        assert(trim_start_if(s@, p) == s@.skip(i as int));
        assert(s@.skip(i as int) =~= s@.subrange(i as int, n as int));
    }
    let mut j: usize = n;
    while j > i && is_space_char(s.get_char(j - 1))
        invariant
            i <= j <= n,
            n == s@.len(),
            p == (|c: char| is_space(c)),
            i < n ==> !p(s@[i as int]),
            trim_start_if(s@, p) == s@.skip(i as int),
            trim_end_if(s@.skip(i as int), p) == trim_end_if(s@.subrange(i as int, j as int), p),
        decreases j,
    {
        proof {
            let cur = s@.subrange(i as int, j as int);
            assert(cur.last() == s@[j - 1]);
            assert(p(cur.last()));
            assert(cur.drop_last() =~= s@.subrange(i as int, j as int - 1));
            assert(trim_end_if(cur, p) == trim_end_if(cur.drop_last(), p));
        }
        j = j - 1;
    }
    proof {
        let cur = s@.subrange(i as int, j as int);
        if j > i {
            assert(cur.last() == s@[j - 1]);
        }
        lemma_trim_end_if_id(cur, p);
    }
    s.substring_char(i, j)
}

/// Strips every leading and trailing `|` from a data row.
pub fn strip_pipes_str<'a>(s: &'a str) -> (r: &'a str)
    ensures
        r@ == strip_pipes(s@),
{
    let ghost p = |c: char| c == '|';
    let n = s.unicode_len();
    let mut i: usize = 0;
    proof {
        assert(s@.skip(0) =~= s@);
    }
    while i < n && s.get_char(i) == '|'
        invariant
            0 <= i <= n,
            n == s@.len(),
            p == (|c: char| c == '|'),
            trim_start_if(s@, p) == trim_start_if(s@.skip(i as int), p),
        decreases n - i,
    {
        proof {
            assert(s@.skip(i as int)[0] == s@[i as int]);
            assert(p(s@.skip(i as int)[0]));
            assert(s@.skip(i as int).drop_first() =~= s@.skip(i as int + 1));
            assert(trim_start_if(s@.skip(i as int), p) == trim_start_if(
                s@.skip(i as int + 1),
                p,
            ));
        }
        i = i + 1;
    }
    proof {
        if i < n {
            assert(s@.skip(i as int)[0] == s@[i as int]);
        }
        lemma_trim_start_if_id(s@.skip(i as int), p);
        assert(trim_start_if(s@, p) == s@.skip(i as int));
        assert(s@.skip(i as int) =~= s@.subrange(i as int, n as int));
    }
    let mut j: usize = n;
    while j > i && s.get_char(j - 1) == '|'
        invariant
            i <= j <= n,
            n == s@.len(),
            p == (|c: char| c == '|'),
            i < n ==> !p(s@[i as int]),
            trim_start_if(s@, p) == s@.skip(i as int),
            trim_end_if(s@.skip(i as int), p) == trim_end_if(s@.subrange(i as int, j as int), p),
        decreases j,
    {
        proof {
            let cur = s@.subrange(i as int, j as int);
            assert(cur.last() == s@[j - 1]);
            assert(p(cur.last()));
            assert(cur.drop_last() =~= s@.subrange(i as int, j as int - 1));
            assert(trim_end_if(cur, p) == trim_end_if(cur.drop_last(), p));
        }
        j = j - 1;
    }
    proof {
        let cur = s@.subrange(i as int, j as int);
        if j > i {
            assert(cur.last() == s@[j - 1]);
        }
        lemma_trim_end_if_id(cur, p);
    }
    s.substring_char(i, j)
}

/// Finds the first occurrence of `c` at or after `from`.
pub fn find_from(s: &str, from: usize, c: char) -> (r: Option<usize>)
    requires
        from <= s@.len(),
    ensures
        match r {
            Some(k) => from <= k < s@.len() && first_index_of(s@.skip(from as int), c) == k - from,
            None => first_index_of(s@.skip(from as int), c) == -1,
        },
{
    let n = s.unicode_len();
    let mut i: usize = from;
    while i < n
        invariant
            from <= i <= n,
            n == s@.len(),
            forall|j: int| from <= j < i ==> s@[j] != c,
        decreases n - i,
    {
        if s.get_char(i) == c {
            proof {
                let t = s@.skip(from as int);
                assert(t[i - from] == s@[i as int]);
                assert forall|j: int| 0 <= j < i - from implies t[j] != c by {
                    assert(t[j] == s@[j + from]);
                }
                lemma_first_index_of_at(t, c, i - from);
            }
            return Some(i);
        }
        i = i + 1;
    }
    proof {
        let t = s@.skip(from as int);
        lemma_first_index_of_props(t, c);
        let f = first_index_of(t, c);
        if f >= 0 {
            assert(t[f] == s@[f + from]);
        }
    }
    None
}

/// The views of a sequence of owned strings.
pub open spec fn str_views(v: Seq<String>) -> Seq<Seq<char>> {
    v.map_values(|p: String| p@)
}

/// Splits `s` on the separator `c`, keeping empty pieces, as the parser
/// cuts a data row into its fields.
pub fn split_str(s: &str, c: char) -> (r: Vec<String>)
    ensures
        str_views(r@) == split_on(s@, c),
{
    let n = s.unicode_len();
    let mut r: Vec<String> = Vec::new();
    let mut pos: usize = 0;
    proof {
        assert(s@.skip(0) =~= s@);
        assert(str_views(r@) =~= Seq::<Seq<char>>::empty());
        assert(str_views(r@) + split_on(s@, c) =~= split_on(s@, c));
    }
    loop
        invariant
            0 <= pos <= n,
            n == s@.len(),
            split_on(s@, c) == str_views(r@) + split_on(s@.skip(pos as int), c),
        decreases n - pos,
    {
        let found = find_from(s, pos, c);
        match found {
            Some(k) => {
                let piece = String::from_str(s.substring_char(pos, k));
                proof {
                    let t = s@.skip(pos as int);
                    let f = first_index_of(t, c);
                    assert(f == k - pos);
                    assert(t.take(f) =~= s@.subrange(pos as int, k as int));
                    assert(t.skip(f + 1) =~= s@.skip(k as int + 1));
                    assert(split_on(t, c) == seq![piece@] + split_on(s@.skip(k as int + 1), c));
                    assert(str_views(r@.push(piece)) =~= str_views(r@) + seq![piece@]);
                    assert(str_views(r@) + (seq![piece@] + split_on(s@.skip(k as int + 1), c))
                        =~= str_views(r@.push(piece)) + split_on(s@.skip(k as int + 1), c));
                }
                r.push(piece);
                pos = k + 1;
            },
            None => {
                let piece = String::from_str(s.substring_char(pos, n));
                proof {
                    let t = s@.skip(pos as int);
                    lemma_first_index_of_props(t, c);
                    assert(t =~= s@.subrange(pos as int, n as int));
                    assert(split_on(t, c) == seq![piece@]);
                    assert(str_views(r@.push(piece)) =~= str_views(r@) + seq![piece@]);
                    assert(split_on(s@, c) =~= str_views(r@.push(piece)));
                }
                r.push(piece);
                return r;
            },
        }
    }
}

/// Lexicographic order on text by Unicode code point, the order the
/// sorter uses for the textual fields.
pub open spec fn lex_le(a: Seq<char>, b: Seq<char>) -> bool
    decreases a.len(),
{
    if a.len() == 0 {
        true
    } else if b.len() == 0 {
        false
    } else if (a[0] as u32) < (b[0] as u32) {
        true
    } else if (a[0] as u32) > (b[0] as u32) {
        false
    } else {
        lex_le(a.drop_first(), b.drop_first())
    }
}

/// Any two strings compare one way or the other.
pub proof fn lemma_lex_le_total(a: Seq<char>, b: Seq<char>)
    ensures
        lex_le(a, b) || lex_le(b, a),
    decreases a.len(),
{
    if a.len() == 0 || b.len() == 0 {
    } else if (a[0] as u32) == (b[0] as u32) {
        lemma_lex_le_total(a.drop_first(), b.drop_first());
    }
}

/// Lexicographic order is transitive.
pub proof fn lemma_lex_le_trans(a: Seq<char>, b: Seq<char>, c: Seq<char>)
    requires
        lex_le(a, b),
        lex_le(b, c),
    ensures
        lex_le(a, c),
    decreases a.len(),
{
    if a.len() == 0 || b.len() == 0 || c.len() == 0 {
    } else if (a[0] as u32) == (b[0] as u32) && (b[0] as u32) == (c[0] as u32) {
        lemma_lex_le_trans(a.drop_first(), b.drop_first(), c.drop_first());
    }
}

/// Compares two strings lexicographically by code point.
pub fn str_le(a: &str, b: &str) -> (r: bool)
    ensures
        r == lex_le(a@, b@),
{
    let na = a.unicode_len();
    let nb = b.unicode_len();
    let mut i: usize = 0;
    proof {
        assert(a@.skip(0) =~= a@);
        assert(b@.skip(0) =~= b@);
    }
    loop
        invariant
            0 <= i <= na,
            i <= nb,
            na == a@.len(),
            nb == b@.len(),
            lex_le(a@, b@) == lex_le(a@.skip(i as int), b@.skip(i as int)),
        decreases na - i,
    {
        proof {
            assert(a@.skip(i as int).len() == na - i);
            assert(b@.skip(i as int).len() == nb - i);
        }
        if i >= na {
            return true;
        }
        if i >= nb {
            return false;
        }
        let ca = a.get_char(i);
        let cb = b.get_char(i);
        proof {
            assert(a@.skip(i as int)[0] == a@[i as int]);
            assert(b@.skip(i as int)[0] == b@[i as int]);
        }
        if (ca as u32) < (cb as u32) {
            return true;
        }
        if (ca as u32) > (cb as u32) {
            return false;
        }
        proof {
            assert(a@.skip(i as int).drop_first() =~= a@.skip(i as int + 1));
            assert(b@.skip(i as int).drop_first() =~= b@.skip(i as int + 1));
        }
        i = i + 1;
    }
}

} // verus!
