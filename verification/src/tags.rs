//! Tag filter expressions: the grammar `clause,clause,...` where a clause is
//! `key=value+key=value+...`, and matching of compiled filters against an
//! element's tag list.
//!
//! A filter matches an element when any clause matches (or the filter is
//! empty); a clause matches when the element's tags contain every one of its
//! key/value pairs, by exact string equality.

use vstd::prelude::*;

verus! {

/// One key/value pair: a requirement inside a filter clause, and also the
/// tag type that elements carry.
#[derive(Debug, PartialEq, Eq, Clone)]
pub struct TagInner(pub String, pub String);

impl View for TagInner {
    type V = (Seq<char>, Seq<char>);

    open spec fn view(&self) -> (Seq<char>, Seq<char>) {
        (self.0@, self.1@)
    }
}

impl DeepView for TagInner {
    type V = (Seq<char>, Seq<char>);

    open spec fn deep_view(&self) -> (Seq<char>, Seq<char>) {
        self.view()
    }
}

impl TagInner {
    pub fn key(&self) -> (r: &str)
        ensures
            r@ == self@.0,
    {
        self.0.as_str()
    }

    pub fn value(&self) -> (r: &str)
        ensures
            r@ == self@.1,
    {
        self.1.as_str()
    }
}

/// Splitting a character sequence at every occurrence of `sep`.  The result
/// always has at least one piece; an empty input gives one empty piece, and
/// separators at the edges or next to each other give empty pieces.
pub open spec fn split_on(s: Seq<char>, sep: char) -> Seq<Seq<char>>
    decreases s.len(),
{
    if s.len() == 0 {
        seq![Seq::<char>::empty()]
    } else if s[0] == sep {
        seq![Seq::<char>::empty()] + split_on(s.drop_first(), sep)
    } else {
        let rest = split_on(s.drop_first(), sep);
        seq![seq![s[0]] + rest[0]] + rest.drop_first()
    }
}

pub proof fn lemma_split_on_len(s: Seq<char>, sep: char)
    ensures
        split_on(s, sep).len() >= 1,
    decreases s.len(),
{
    if s.len() != 0 && s[0] != sep {
        lemma_split_on_len(s.drop_first(), sep);
    }
}

/// A piece free of the separator splits into itself alone.
pub proof fn lemma_split_on_no_sep(s: Seq<char>, sep: char)
    requires
        !s.contains(sep),
    ensures
        split_on(s, sep) == seq![s],
    decreases s.len(),
{
    if s.len() == 0 {
        assert(split_on(s, sep) =~~= seq![s]);
    } else {
        assert(s[0] != sep);
        assert(!s.drop_first().contains(sep)) by {
            if s.drop_first().contains(sep) {
                let i = choose|i: int| 0 <= i < s.drop_first().len() && s.drop_first()[i] == sep;
                assert(s[i + 1] == sep);
            }
        }
        lemma_split_on_no_sep(s.drop_first(), sep);
        assert(split_on(s, sep) =~~= seq![s]);
    }
}

/// Splitting a concatenation around one separator splits each side on its own.
pub proof fn lemma_split_on_concat(a: Seq<char>, b: Seq<char>, sep: char)
    ensures
        split_on(a + seq![sep] + b, sep) == split_on(a, sep) + split_on(b, sep),
    decreases a.len(),
{
    let s = a + seq![sep] + b;
    if a.len() == 0 {
        assert(s[0] == sep);
        assert(s.drop_first() =~= b);
        assert(split_on(s, sep) =~~= split_on(a, sep) + split_on(b, sep));
    } else {
        assert(s[0] == a[0]);
        assert(s.drop_first() =~= a.drop_first() + seq![sep] + b);
        lemma_split_on_concat(a.drop_first(), b, sep);
        lemma_split_on_len(a.drop_first(), sep);
        if a[0] == sep {
            assert(split_on(s, sep) =~~= split_on(a, sep) + split_on(b, sep));
        } else {
            let sa = split_on(a.drop_first(), sep);
            let sb = split_on(b, sep);
            assert((sa + sb)[0] == sa[0]);
            assert((sa + sb).drop_first() =~~= sa.drop_first() + sb);
            assert(split_on(s, sep) =~~= split_on(a, sep) + split_on(b, sep));
        }
    }
}

/// Splits `s` at every occurrence of `sep`.
pub fn split_str(s: &str, sep: char) -> (r: Vec<String>)
    ensures
        r.deep_view() == split_on(s@, sep),
{
    let len = s.unicode_len();
    let mut r: Vec<String> = Vec::new();
    let mut start: usize = 0;
    let mut i: usize = 0;
    proof {
        assert(s@.skip(0) =~= s@);
        assert(r.deep_view() =~~= Seq::<Seq<char>>::empty());
        assert(r.deep_view() + split_on(s@, sep) =~~= split_on(s@, sep));
    }
    while i < len
        invariant
            start <= i <= len,
            len == s@.len(),
            split_on(s@, sep) == r.deep_view() + split_on(s@.skip(start as int), sep),
            forall|k: int| start <= k < i ==> s@[k] != sep,
        decreases len - i,
    {
        let c = s.get_char(i);
        if c == sep {
            let piece = s.substring_char(start, i).to_owned();
            proof {
                let pre = s@.subrange(start as int, i as int);
                assert(s@.skip(start as int) =~= pre + seq![sep] + s@.skip(i as int + 1));
                lemma_split_on_concat(pre, s@.skip(i as int + 1), sep);
                assert(!pre.contains(sep)) by {
                    if pre.contains(sep) {
                        let k = choose|k: int| 0 <= k < pre.len() && pre[k] == sep;
                        assert(s@[start + k] == sep);
                    }
                }
                lemma_split_on_no_sep(pre, sep);
                assert((r.deep_view() + split_on(s@.skip(start as int), sep)) =~~= (
                r.deep_view().push(piece@) + split_on(s@.skip(i as int + 1), sep)));
            }
            let ghost old_r = r.deep_view();
            r.push(piece);
            proof {
                assert(r.deep_view() =~~= old_r.push(piece@));
            }
            start = i + 1;
        }
        i = i + 1;
    }
    let piece = s.substring_char(start, len).to_owned();
    proof {
        let tail = s@.skip(start as int);
        assert(!tail.contains(sep)) by {
            if tail.contains(sep) {
                let k = choose|k: int| 0 <= k < tail.len() && tail[k] == sep;
                assert(s@[start + k] == sep);
            }
        }
        lemma_split_on_no_sep(tail, sep);
        assert(piece@ == tail);
    }
    let ghost old_r = r.deep_view();
    r.push(piece);
    proof {
        assert(r.deep_view() =~~= old_r.push(s@.skip(start as int)));
        assert(r.deep_view() =~~= split_on(s@, sep));
    }
    r
}

/// Why a filter expression was rejected.  An empty pair token reports
/// `MissingKey`.  `MissingValue` covers a pair whose key is present but
/// yields no value segment; the first-equals rule derives a value from
/// every non-empty token, so the current grammar never reports it.
#[derive(Debug, PartialEq, Eq, Structural, Clone, Copy)]
pub enum ParseError {
    MissingKey,
    MissingValue,
}

/// The key of one pair token: everything before the first `=`, or the whole
/// token when it has no `=` (the degenerate form, kept deliberately: such a
/// token stands for itself as both key and value).
pub open spec fn token_key(t: Seq<char>) -> Seq<char> {
    match t.index_of_first('=') {
        Some(i) => t.take(i),
        None => t,
    }
}

/// The value of one pair token: everything after the first `=` (a value may
/// itself contain `=`), or the whole token when it has no `=`.
pub open spec fn token_value(t: Seq<char>) -> Seq<char> {
    match t.index_of_first('=') {
        Some(i) => t.skip(i + 1),
        None => t,
    }
}

/// Splits one pair token at its first `=`.
fn split_pair(t: &str) -> (r: TagInner)
    ensures
        r@.0 == token_key(t@),
        r@.1 == token_value(t@),
{
    let len = t.unicode_len();
    let mut i: usize = 0;
    proof {
        t@.index_of_first_ensures('=');
    }
    while i < len
        invariant
            i <= len,
            len == t@.len(),
            forall|k: int| 0 <= k < i ==> t@[k] != '=',
            t@.index_of_first('=') matches Some(j) ==> i <= j,
        decreases len - i,
    {
        if t.get_char(i) == '=' {
            proof {
                t@.index_of_first_ensures('=');
                assert(t@.contains('=')) by {
                    assert(t@[i as int] == '=');
                }
                assert(t@.index_of_first('=') == Some(i as int));
            }
            let key = t.substring_char(0, i).to_owned();
            let value = t.substring_char(i + 1, len).to_owned();
            return TagInner(key, value);
        }
        i = i + 1;
        proof {
            t@.index_of_first_ensures('=');
        }
    }
    proof {
        t@.index_of_first_ensures('=');
        assert(t@.index_of_first('=') is None) by {
            if t@.contains('=') {
                let k = choose|k: int| 0 <= k < t@.len() && t@[k] == '=';
                assert(t@[k] == '=');
            }
        }
    }
    TagInner(t.to_owned(), t.to_owned())
}

/// The pair tokens of each clause of the expression.
pub open spec fn spec_clauses(s: Seq<char>) -> Seq<Seq<Seq<char>>> {
    split_on(s, ',').map_values(|cl: Seq<char>| split_on(cl, '+'))
}

/// Whether some clause of the expression holds an empty pair token (the one
/// malformed shape: a key cannot be derived from it).
pub open spec fn has_empty_token(s: Seq<char>) -> bool {
    exists|i: int, j: int|
        0 <= i < spec_clauses(s).len() && 0 <= j < spec_clauses(s)[i].len()
            && spec_clauses(s)[i][j].len() == 0
}

/// The compiled filter: each clause's tokens split into key/value pairs.
pub open spec fn spec_filter(s: Seq<char>) -> Seq<Seq<(Seq<char>, Seq<char>)>> {
    spec_clauses(s).map_values(
        |cl: Seq<Seq<char>>| cl.map_values(|t: Seq<char>| (token_key(t), token_value(t))),
    )
}

/// Compiles a filter expression: clauses separated by `,`, pairs inside a
/// clause separated by `+`, key and value separated by the first `=`.
/// Rejects exactly the expressions that hold an empty pair token.
pub fn split_tags(tags: &str) -> (r: Result<Vec<Vec<TagInner>>, ParseError>)
    ensures
        r is Ok <==> !has_empty_token(tags@),
        r matches Ok(f) ==> f.deep_view() == spec_filter(tags@),
        r matches Err(e) ==> e == ParseError::MissingKey,
{
    let clauses = split_str(tags, ',');
    let mut result: Vec<Vec<TagInner>> = Vec::new();
    let n = clauses.len();
    let mut ci: usize = 0;
    proof {
        assert(clauses.deep_view().len() == n);
        assert(result.deep_view() =~~= spec_filter(tags@).take(0));
    }
    while ci < n
        invariant
            ci <= n,
            n == clauses.len(),
            clauses.deep_view() == split_on(tags@, ','),
            result.deep_view() == spec_filter(tags@).take(ci as int),
            forall|i: int, j: int|
                0 <= i < ci && 0 <= j < spec_clauses(tags@)[i].len()
                    ==> spec_clauses(tags@)[i][j].len() != 0,
        decreases n - ci,
    {
        proof {
            assert(clauses[ci as int].deep_view() == split_on(tags@, ',')[ci as int]);
        }
        let tokens = split_str(clauses[ci].as_str(), '+');
        let ghost cl_tokens = spec_clauses(tags@)[ci as int];
        proof {
            assert(tokens.deep_view() == cl_tokens);
        }
        let mut clause: Vec<TagInner> = Vec::new();
        let m = tokens.len();
        let mut ti: usize = 0;
        proof {
            assert(clause.deep_view() =~~= cl_tokens.map_values(
                |t: Seq<char>| (token_key(t), token_value(t)),
            ).take(0));
        }
        while ti < m
            invariant
                ti <= m,
                m == tokens.len(),
                tokens.deep_view() == cl_tokens,
                ci < n,
                cl_tokens == spec_clauses(tags@)[ci as int],
                0 <= ci < spec_clauses(tags@).len(),
                clause.deep_view() == cl_tokens.map_values(
                    |t: Seq<char>| (token_key(t), token_value(t)),
                ).take(ti as int),
                forall|j: int| 0 <= j < ti ==> cl_tokens[j].len() != 0,
            decreases m - ti,
        {
            let token = &tokens[ti];
            proof {
                assert(token@ == cl_tokens[ti as int]);
            }
            if token.as_str().unicode_len() == 0 {
                proof {
                    assert(has_empty_token(tags@)) by {
                        assert(spec_clauses(tags@)[ci as int][ti as int].len() == 0);
                    }
                }
                return Err(ParseError::MissingKey);
            }
            let pair = split_pair(token.as_str());
            let ghost old_clause = clause.deep_view();
            clause.push(pair);
            proof {
                assert(clause.deep_view() =~~= old_clause.push(pair@));
                assert(clause.deep_view() =~~= cl_tokens.map_values(
                    |t: Seq<char>| (token_key(t), token_value(t)),
                ).take(ti as int + 1));
            }
            ti = ti + 1;
        }
        let ghost old_result = result.deep_view();
        result.push(clause);
        proof {
            assert(result.deep_view() =~~= old_result.push(clause.deep_view()));
            assert(result.deep_view() =~~= spec_filter(tags@).take(ci as int + 1));
        }
        ci = ci + 1;
    }
    proof {
        assert(result.deep_view() =~~= spec_filter(tags@));
        assert(!has_empty_token(tags@));
    }
    Ok(result)
}

/// Whether a tag list contains the pair `(k, v)`, by exact string equality.
pub open spec fn tags_contain(tags: Seq<(Seq<char>, Seq<char>)>, k: Seq<char>, v: Seq<char>) -> bool {
    exists|i: int| 0 <= i < tags.len() && tags[i].0 == k && tags[i].1 == v
}

/// Whether a tag list satisfies every pair of one clause (conjunction).
pub open spec fn clause_matches(tags: Seq<(Seq<char>, Seq<char>)>, clause: Seq<(Seq<char>, Seq<char>)>) -> bool {
    forall|i: int| 0 <= i < clause.len() ==> tags_contain(tags, clause[i].0, clause[i].1)
}

/// Whether a tag list satisfies a filter: any clause suffices (disjunction),
/// and the empty filter matches everything.
pub open spec fn filter_matches(tags: Seq<(Seq<char>, Seq<char>)>, filter: Seq<Seq<(Seq<char>, Seq<char>)>>) -> bool {
    filter.len() == 0 || exists|i: int| 0 <= i < filter.len() && clause_matches(tags, filter[i])
}

/// A filter with no clauses turns nothing away: it matches every tag list.
pub proof fn lemma_empty_filter_matches_all(tags: Seq<(Seq<char>, Seq<char>)>)
    ensures
        filter_matches(tags, Seq::<Seq<(Seq<char>, Seq<char>)>>::empty()),
{
}

fn tags_contain_exec(tags: &Vec<TagInner>, pair: &TagInner) -> (r: bool)
    ensures
        r == tags_contain(tags.deep_view(), pair@.0, pair@.1),
{
    let n = tags.len();
    let mut i: usize = 0;
    while i < n
        invariant
            i <= n,
            n == tags.len(),
            forall|k: int| 0 <= k < i ==> !(tags.deep_view()[k].0 == pair@.0
                && tags.deep_view()[k].1 == pair@.1),
        decreases n - i,
    {
        if tags[i].0 == pair.0 && tags[i].1 == pair.1 {
            proof {
                assert(tags.deep_view()[i as int].0 == pair@.0);
                assert(tags.deep_view()[i as int].1 == pair@.1);
            }
            return true;
        }
        i = i + 1;
    }
    false
}

fn clause_matches_exec(tags: &Vec<TagInner>, clause: &Vec<TagInner>) -> (r: bool)
    ensures
        r == clause_matches(tags.deep_view(), clause.deep_view()),
{
    let n = clause.len();
    let mut i: usize = 0;
    while i < n
        invariant
            i <= n,
            n == clause.len(),
            forall|k: int| 0 <= k < i ==> tags_contain(
                tags.deep_view(),
                clause.deep_view()[k].0,
                clause.deep_view()[k].1,
            ),
        decreases n - i,
    {
        if !tags_contain_exec(tags, &clause[i]) {
            proof {
                assert(clause.deep_view()[i as int] == clause[i as int]@);
            }
            return false;
        }
        i = i + 1;
    }
    true
}

/// Whether `tags` satisfies the compiled filter.  The empty filter accepts
/// every element; otherwise some clause must hold in full.
pub fn matches_filter(filter: &Vec<Vec<TagInner>>, tags: &Vec<TagInner>) -> (r: bool)
    ensures
        r == filter_matches(tags.deep_view(), filter.deep_view()),
{
    let n = filter.len();
    if n == 0 {
        return true;
    }
    let mut i: usize = 0;
    while i < n
        invariant
            i <= n,
            n == filter.len(),
            forall|k: int| 0 <= k < i ==> !clause_matches(tags.deep_view(), filter.deep_view()[k]),
        decreases n - i,
    {
        if clause_matches_exec(tags, &filter[i]) {
            proof {
                assert(filter.deep_view()[i as int] == filter[i as int].deep_view());
            }
            return true;
        }
        i = i + 1;
    }
    false
}

} // verus!
