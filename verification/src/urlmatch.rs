//! URL template matching with path-parameter extraction.
//!
//! A template such as `/api/users/{id}` is compiled into a sequence of
//! tokens: each `{name}` placeholder matches one or more characters other
//! than `/`, greedily with backtracking, and every other character matches
//! itself. Both the template and the URL are normalized first: the query
//! string is stripped, trailing slashes are trimmed, and an empty path
//! becomes `/`. One trailing slash is tolerated on the matched URL.

use vstd::prelude::*;
use vstd::string::*;
use crate::strmap::{sm_set, StringMap};
use crate::text::{
    chars_of, find_char, find_char_from, first_index_of, lemma_first_index_of, string_of,
};

verus! {

/// One token of a compiled URL template.
#[derive(Debug)]
pub enum UrlToken {
    Lit(char),
    Param(Vec<char>),
}

/// Mathematical view of a URL template token.
pub enum UrlTokenV {
    Lit(char),
    Param(Seq<char>),
}

impl View for UrlToken {
    type V = UrlTokenV;

    open spec fn view(&self) -> UrlTokenV {
        match self {
            UrlToken::Lit(c) => UrlTokenV::Lit(*c),
            UrlToken::Param(name) => UrlTokenV::Param(name@),
        }
    }
}

/// Tokens of the template from position `pos` on: `{name}` becomes a
/// parameter token (an unclosed `{` takes the whole remainder as the name),
/// any other character a literal token.
pub open spec fn tokenize_from(p: Seq<char>, pos: int) -> Seq<UrlTokenV>
    decreases p.len() - pos,
{
    if pos < 0 || pos >= p.len() {
        Seq::empty()
    } else if p[pos] == '{' {
        let i = first_index_of(p.skip(pos + 1), '}');
        if 0 <= i < p.len() - pos - 1 {
            seq![UrlTokenV::Param(p.subrange(pos + 1, pos + 1 + i))] + tokenize_from(
                p,
                pos + 2 + i,
            )
        } else {
            seq![UrlTokenV::Param(p.subrange(pos + 1, p.len() as int))]
        }
    } else {
        seq![UrlTokenV::Lit(p[pos])] + tokenize_from(p, pos + 1)
    }
}

/// The whole template, tokenized.
pub open spec fn tokenize_spec(p: Seq<char>) -> Seq<UrlTokenV> {
    tokenize_from(p, 0)
}

fn mk_lit(c: char) -> (t: UrlToken)
    ensures
        t == UrlToken::Lit(c),
{
    UrlToken::Lit(c)
}

fn mk_param(name: Vec<char>) -> (t: UrlToken)
    ensures
        t == UrlToken::Param(name),
{
    UrlToken::Param(name)
}

/// Compile a template into tokens.
pub fn tokenize(p: &Vec<char>, pos: usize) -> (r: Vec<UrlToken>)
    requires
        pos <= p@.len(),
    ensures
        r@.map_values(|t: UrlToken| t@) == tokenize_from(p@, pos as int),
    decreases p@.len() - pos,
{
    if pos >= p.len() {
        let empty: Vec<UrlToken> = Vec::new();
        proof {
            assert(empty@.map_values(|t: UrlToken| t@) =~= tokenize_from(p@, pos as int));
        }
        return empty;
    }
    let mut toks: Vec<UrlToken> = Vec::new();
    if p[pos] == '{' {
        let close = find_char_from(p, '}', pos + 1);
        proof {
            lemma_first_index_of(p@.skip(pos as int + 1), '}');
        }
        if close < p.len() {
            let mut name: Vec<char> = Vec::new();
            let mut j: usize = pos + 1;
            while j < close
                invariant
                    pos + 1 <= j <= close < p@.len(),
                    name@ == p@.subrange(pos as int + 1, j as int),
                decreases close - j,
            {
                name.push(p[j]);
                j = j + 1;
                proof {
                    assert(name@ =~= p@.subrange(pos as int + 1, j as int));
                }
            }
            let rest = tokenize(p, close + 1);
            toks.push(mk_param(name));
            proof {
                assert(toks@[0] == UrlToken::Param(name));
            }
            let mut m: usize = 0;
            while m < rest.len()
                invariant
                    m <= rest@.len(),
                    toks@.len() == m + 1,
                    toks@[0]@ == UrlTokenV::Param(
                        p@.subrange(pos as int + 1, close as int),
                    ),
                    forall|t: int| 1 <= t < m + 1 ==> (#[trigger] toks@[t])@ == rest@[t - 1]@,
                decreases rest@.len() - m,
            {
                let tok = match &rest[m] {
                    UrlToken::Lit(c) => mk_lit(*c),
                    UrlToken::Param(name) => mk_param(crate::text::clone_chars(name)),
                };
                toks.push(tok);
                m = m + 1;
            }
            proof {
                let i = close as int - pos as int - 1;
                assert(i == first_index_of(p@.skip(pos as int + 1), '}'));
                assert(p@.skip(pos as int + 1).len() == p@.len() - pos as int - 1);
                assert(tokenize_from(p@, pos as int) == seq![
                    UrlTokenV::Param(p@.subrange(pos as int + 1, close as int)),
                ] + tokenize_from(p@, close as int + 1));
                assert forall|j: int|
                    0 <= j < toks@.len() implies toks@.map_values(|t: UrlToken| t@)[j] == #[trigger] tokenize_from(
                    p@,
                    pos as int,
                )[j] by {
                    if j > 0 {
                        assert(toks@[j]@ == rest@[j - 1]@);
                        assert(rest@.map_values(|t: UrlToken| t@)[j - 1] == rest@[j - 1]@);
                    }
                }
                assert(toks@.map_values(|t: UrlToken| t@) =~= tokenize_from(p@, pos as int));
            }
            toks
        } else {
            let mut name: Vec<char> = Vec::new();
            let mut j: usize = pos + 1;
            while j < p.len()
                invariant
                    pos + 1 <= j <= p@.len(),
                    name@ == p@.subrange(pos as int + 1, j as int),
                decreases p@.len() - j,
            {
                name.push(p[j]);
                j = j + 1;
                proof {
                    assert(name@ =~= p@.subrange(pos as int + 1, j as int));
                }
            }
            toks.push(mk_param(name));
            proof {
                assert(toks@[0] == UrlToken::Param(name));
                assert(p@.skip(pos as int + 1).len() == p@.len() - pos as int - 1);
                assert(name@ == p@.subrange(pos as int + 1, p@.len() as int));
                assert(toks@.map_values(|t: UrlToken| t@) =~= tokenize_from(p@, pos as int));
            }
            toks
        }
    } else {
        let rest = tokenize(p, pos + 1);
        let tok0 = mk_lit(p[pos]);
        toks.push(tok0);
        proof {
            assert(toks@[0] == UrlToken::Lit(p@[pos as int]));
        }
        let mut m: usize = 0;
        while m < rest.len()
            invariant
                m <= rest@.len(),
                toks@.len() == m + 1,
                toks@[0]@ == UrlTokenV::Lit(p@[pos as int]),
                forall|t: int| 1 <= t < m + 1 ==> (#[trigger] toks@[t])@ == rest@[t - 1]@,
            decreases rest@.len() - m,
        {
            let tok = match &rest[m] {
                UrlToken::Lit(c) => mk_lit(*c),
                UrlToken::Param(name) => mk_param(crate::text::clone_chars(name)),
            };
            toks.push(tok);
            m = m + 1;
        }
        proof {
            assert(tokenize_from(p@, pos as int) == seq![UrlTokenV::Lit(p@[pos as int])]
                + tokenize_from(p@, pos as int + 1));
            assert forall|j: int|
                0 <= j < toks@.len() implies toks@.map_values(|t: UrlToken| t@)[j] == #[trigger] tokenize_from(
                p@,
                pos as int,
            )[j] by {
                if j > 0 {
                    assert(toks@[j]@ == rest@[j - 1]@);
                    assert(rest@.map_values(|t: UrlToken| t@)[j - 1] == rest@[j - 1]@);
                }
            }
            assert(toks@.map_values(|t: UrlToken| t@) =~= tokenize_from(p@, pos as int));
        }
        toks
    }
}

/// Length of the run of non-`/` characters at `pos`, clamped to the
/// remaining length.
pub open spec fn seg_run(url: Seq<char>, pos: int) -> int {
    let i = first_index_of(url.skip(pos), '/');
    if i < 0 {
        0
    } else if i > url.len() - pos {
        url.len() - pos
    } else {
        i
    }
}

/// Match tokens from `ti` against the URL from `pos`; on success, the
/// extracted parameters in token order. The URL is consumed entirely, up to
/// one tolerated trailing slash.
pub open spec fn tmatch(tokens: Seq<UrlTokenV>, ti: int, url: Seq<char>, pos: int) -> Option<
    Seq<(Seq<char>, Seq<char>)>,
>
    decreases tokens.len() - ti, url.len() - pos + 1,
{
    if ti < 0 || ti >= tokens.len() {
        if pos == url.len() || (pos >= 0 && url.len() - pos == 1 && url[pos] == '/') {
            Some(Seq::empty())
        } else {
            None
        }
    } else {
        match tokens[ti] {
            UrlTokenV::Lit(c) => if 0 <= pos < url.len() && url[pos] == c {
                tmatch(tokens, ti + 1, url, pos + 1)
            } else {
                None
            },
            UrlTokenV::Param(name) => if 0 <= pos <= url.len() {
                tparam(tokens, ti, url, pos, seg_run(url, pos))
            } else {
                None
            },
        }
    }
}

/// Try to let the parameter token at `ti` take `l` characters, backtracking
/// to shorter lengths; a parameter takes at least one character.
pub open spec fn tparam(tokens: Seq<UrlTokenV>, ti: int, url: Seq<char>, pos: int, l: int) -> Option<
    Seq<(Seq<char>, Seq<char>)>,
>
    decreases tokens.len() - ti, l,
{
    if !(0 <= ti < tokens.len() && 0 <= pos && pos + l <= url.len() && tokens[ti] is Param) {
        None
    } else if l <= 0 {
        None
    } else {
        match tmatch(tokens, ti + 1, url, pos + l) {
            Some(ps) => Some(
                seq![(tokens[ti]->Param_0, url.subrange(pos, pos + l))] + ps,
            ),
            None => tparam(tokens, ti, url, pos, l - 1),
        }
    }
}

/// Decide `tmatch` on executable values.
pub fn tmatch_exec(tokens: &Vec<UrlToken>, ti: usize, url: &Vec<char>, pos: usize) -> (r: Option<
    Vec<(String, String)>,
>)
    requires
        ti <= tokens@.len(),
        pos <= url@.len(),
    ensures
        match r {
            Some(ps) => tmatch(
                tokens@.map_values(|t: UrlToken| t@),
                ti as int,
                url@,
                pos as int,
            ) == Some(ps@.map_values(|p: (String, String)| (p.0@, p.1@))),
            None => tmatch(
                tokens@.map_values(|t: UrlToken| t@),
                ti as int,
                url@,
                pos as int,
            ) is None,
        },
    decreases tokens@.len() - ti, url@.len() - pos + 1,
{
    let ghost tv = tokens@.map_values(|t: UrlToken| t@);
    if ti >= tokens.len() {
        if pos == url.len() || (url.len() - pos == 1 && url[pos] == '/') {
            let ps: Vec<(String, String)> = Vec::new();
            proof {
                assert(ps@.map_values(|p: (String, String)| (p.0@, p.1@)) =~= Seq::<
                    (Seq<char>, Seq<char>),
                >::empty());
            }
            Some(ps)
        } else {
            None
        }
    } else {
        match &tokens[ti] {
            UrlToken::Lit(c) => {
                proof {
                    assert(tv[ti as int] == UrlTokenV::Lit(*c));
                }
                if pos < url.len() && url[pos] == *c {
                    tmatch_exec(tokens, ti + 1, url, pos + 1)
                } else {
                    None
                }
            },
            UrlToken::Param(_) => {
                let run = find_char_from(url, '/', pos) - pos;
                proof {
                    lemma_first_index_of(url@.skip(pos as int), '/');
                    assert(run == seg_run(url@, pos as int));
                }
                tparam_exec(tokens, ti, url, pos, run)
            },
        }
    }
}

/// Decide `tparam` on executable values.
fn tparam_exec(tokens: &Vec<UrlToken>, ti: usize, url: &Vec<char>, pos: usize, l: usize) -> (r:
    Option<Vec<(String, String)>>)
    requires
        ti < tokens@.len(),
        pos + l <= url@.len(),
        tokens@[ti as int] is Param,
    ensures
        match r {
            Some(ps) => tparam(
                tokens@.map_values(|t: UrlToken| t@),
                ti as int,
                url@,
                pos as int,
                l as int,
            ) == Some(ps@.map_values(|p: (String, String)| (p.0@, p.1@))),
            None => tparam(
                tokens@.map_values(|t: UrlToken| t@),
                ti as int,
                url@,
                pos as int,
                l as int,
            ) is None,
        },
    decreases tokens@.len() - ti, l,
{
    let ghost tv = tokens@.map_values(|t: UrlToken| t@);
    proof {
        assert(tv[ti as int] == tokens@[ti as int]@);
    }
    if l == 0 {
        return None;
    }
    let urllen = url.len();
    let ntokens = tokens.len();
    match tmatch_exec(tokens, ti + 1, url, pos + l) {
        Some(ps) => {
            let name = match &tokens[ti] {
                UrlToken::Param(name) => string_of(name),
                UrlToken::Lit(c) => {
                    proof {
                        assert(tokens@[ti as int]@ == UrlTokenV::Lit(*c));
                        assert(false);
                    }
                    String::new()
                },
            };
            let mut captured: Vec<char> = Vec::new();
            let mut j: usize = pos;
            while j < pos + l
                invariant
                    pos <= j <= pos + l <= url@.len(),
                    captured@ == url@.subrange(pos as int, j as int),
                decreases pos + l - j,
            {
                captured.push(url[j]);
                j = j + 1;
                proof {
                    assert(captured@ =~= url@.subrange(pos as int, j as int));
                }
            }
            let mut out: Vec<(String, String)> = Vec::new();
            out.push((name, string_of(&captured)));
            let mut m: usize = 0;
            while m < ps.len()
                invariant
                    m <= ps@.len(),
                    out@.len() == m + 1,
                    out@[0].0@ == tv[ti as int]->Param_0,
                    out@[0].1@ == url@.subrange(pos as int, pos as int + l as int),
                    forall|t: int| 1 <= t < m + 1 ==> (#[trigger] out@[t]).0@ == ps@[t - 1].0@
                        && out@[t].1@ == ps@[t - 1].1@,
                decreases ps@.len() - m,
            {
                let k = ps[m].0.clone();
                let v = ps[m].1.clone();
                out.push((k, v));
                m = m + 1;
            }
            proof {
                let expect = seq![
                    (tv[ti as int]->Param_0, url@.subrange(pos as int, pos as int + l as int)),
                ] + ps@.map_values(|p: (String, String)| (p.0@, p.1@));
                assert forall|j: int|
                    0 <= j < out@.len() implies out@.map_values(
                    |p: (String, String)| (p.0@, p.1@),
                )[j] == #[trigger] expect[j] by {
                    if j > 0 {
                        assert(out@[j].0@ == ps@[j - 1].0@ && out@[j].1@ == ps@[j - 1].1@);
                        assert(ps@.map_values(|p: (String, String)| (p.0@, p.1@))[j - 1]
                            == (ps@[j - 1].0@, ps@[j - 1].1@));
                    }
                }
                assert(out@.map_values(|p: (String, String)| (p.0@, p.1@)) =~= expect);
            }
            Some(out)
        },
        None => {
            let r = tparam_exec(tokens, ti, url, pos, l - 1);
            r
        },
    }
}

/// Index of the first `?`, clamped to the length.
pub open spec fn query_start(s: Seq<char>) -> int {
    let i = first_index_of(s, '?');
    if i < 0 {
        0
    } else if i > s.len() {
        s.len() as int
    } else {
        i
    }
}

/// Drop every trailing `/`.
pub open spec fn drop_trailing_slashes(s: Seq<char>) -> Seq<char>
    decreases s.len(),
{
    if s.len() > 0 && s[s.len() - 1] == '/' {
        drop_trailing_slashes(s.drop_last())
    } else {
        s
    }
}

/// A normalized URL: the query string is stripped, trailing slashes are
/// trimmed, and an empty result becomes `/`.
pub open spec fn normalize_url_spec(s: Seq<char>) -> Seq<char> {
    let t = drop_trailing_slashes(s.take(query_start(s)));
    if t.len() == 0 {
        seq!['/']
    } else {
        t
    }
}

/// Strip the query string, trim trailing slashes, and turn an empty result
/// into `/`.
pub fn normalize_url(url: &str) -> (r: String)
    ensures
        r@ == normalize_url_spec(url@),
{
    let chars = chars_of(url);
    let q = find_char(&chars, '?');
    proof {
        lemma_first_index_of(chars@, '?');
        assert(q == query_start(url@));
    }
    let mut hi: usize = q;
    while hi > 0 && chars[hi - 1] == '/'
        invariant
            0 <= hi <= q,
            drop_trailing_slashes(chars@.take(q as int)) == drop_trailing_slashes(
                chars@.take(hi as int),
            ),
        decreases hi,
    {
        proof {
            assert(chars@.take(hi as int).drop_last() =~= chars@.take(hi as int - 1));
        }
        hi = hi - 1;
    }
    proof {
        assert(drop_trailing_slashes(chars@.take(hi as int)) == chars@.take(hi as int));
    }
    if hi == 0 {
        let mut slash: Vec<char> = Vec::new();
        slash.push('/');
        proof {
            assert(slash@ =~= seq!['/']);
        }
        string_of(&slash)
    } else {
        let mut out: Vec<char> = Vec::new();
        let mut i: usize = 0;
        while i < hi
            invariant
                i <= hi <= chars@.len(),
                out@ == chars@.take(i as int),
            decreases hi - i,
        {
            out.push(chars[i]);
            i = i + 1;
            proof {
                assert(out@ =~= chars@.take(i as int));
            }
        }
        string_of(&out)
    }
}

/// Result of matching a URL against a template: whether it matched, and the
/// extracted path parameters. On a non-match the parameter map is empty.
#[derive(Debug)]
pub struct UrlMatchResult {
    pub matched: bool,
    pub params: StringMap,
}

/// The parameters of a match folded into a map, later entries winning.
pub open spec fn params_fold(
    acc: Seq<(Seq<char>, Seq<char>)>,
    ps: Seq<(Seq<char>, Seq<char>)>,
) -> Seq<(Seq<char>, Seq<char>)>
    decreases ps.len(),
{
    if ps.len() == 0 {
        acc
    } else {
        params_fold(sm_set(acc, ps[0].0, ps[0].1), ps.drop_first())
    }
}

/// The match of a normalized template against a normalized URL.
pub open spec fn url_match_spec(pattern: Seq<char>, url: Seq<char>) -> Option<
    Seq<(Seq<char>, Seq<char>)>,
> {
    tmatch(tokenize_spec(normalize_url_spec(pattern)), 0, normalize_url_spec(url), 0)
}

proof fn lemma_params_fold_push(
    acc: Seq<(Seq<char>, Seq<char>)>,
    ps: Seq<(Seq<char>, Seq<char>)>,
    x: (Seq<char>, Seq<char>),
)
    ensures
        params_fold(acc, ps.push(x)) == sm_set(params_fold(acc, ps), x.0, x.1),
    decreases ps.len(),
{
    let p = ps.push(x);
    if ps.len() == 0 {
        assert(p[0] == x);
        assert(p.drop_first() =~= Seq::<(Seq<char>, Seq<char>)>::empty());
        assert(params_fold(acc, p) == params_fold(sm_set(acc, x.0, x.1), p.drop_first()));
    } else {
        assert(p[0] == ps[0]);
        assert(p.drop_first() =~= ps.drop_first().push(x));
        let acc2 = sm_set(acc, ps[0].0, ps[0].1);
        assert(params_fold(acc, p) == params_fold(acc2, p.drop_first()));
        lemma_params_fold_push(acc2, ps.drop_first(), x);
    }
}

/// Match a URL against a template and extract its path parameters.
pub fn url_matches(pattern: &str, url: &str) -> (r: UrlMatchResult)
    ensures
        r.matched == url_match_spec(pattern@, url@) is Some,
        r.params@ == match url_match_spec(pattern@, url@) {
            Some(ps) => params_fold(Seq::empty(), ps),
            None => Seq::<(Seq<char>, Seq<char>)>::empty(),
        },
{
    let npattern = normalize_url(pattern);
    let nurl = normalize_url(url);
    let pchars = chars_of(npattern.as_str());
    let uchars = chars_of(nurl.as_str());
    let tokens = tokenize(&pchars, 0);
    match tmatch_exec(&tokens, 0, &uchars, 0) {
        Some(ps) => {
            let ghost psv = ps@.map_values(|p: (String, String)| (p.0@, p.1@));
            let mut params = StringMap::new();
            let mut i: usize = 0;
            while i < ps.len()
                invariant
                    i <= ps@.len(),
                    params@ == params_fold(Seq::empty(), psv.take(i as int)),
                decreases ps@.len() - i,
            {
                let k = ps[i].0.clone();
                let v = ps[i].1.clone();
                params.insert(k, v);
                proof {
                    assert(psv.take(i as int).push(psv[i as int]) =~= psv.take(i as int + 1));
                    lemma_params_fold_push(Seq::empty(), psv.take(i as int), psv[i as int]);
                }
                i = i + 1;
            }
            proof {
                assert(psv.take(psv.len() as int) =~= psv);
            }
            UrlMatchResult { matched: true, params }
        },
        None => UrlMatchResult { matched: false, params: StringMap::new() },
    }
}

/// A trailing slash on the URL never changes the result of normalization,
/// and so never changes the result of URL matching.
pub proof fn lemma_normalize_trailing_slash(s: Seq<char>)
    ensures
        normalize_url_spec(s.push('/')) == normalize_url_spec(s),
{
    let p = s.push('/');
    lemma_first_index_of(s, '?');
    lemma_first_index_of(p, '?');
    let qs = query_start(s);
    if first_index_of(s, '?') < s.len() {
        lemma_first_index_unique_push(s, '?', '/');
        assert(query_start(p) == qs);
        assert(p.take(query_start(p)) =~= s.take(qs));
    } else {
        assert(forall|j: int| 0 <= j < s.len() ==> s[j] != '?');
        assert forall|j: int| 0 <= j < p.len() implies p[j] != '?' by {
            if j < s.len() {
                assert(p[j] == s[j]);
            } else {
                assert(p[j] == '/');
            }
        }
        crate::text::lemma_first_index_unique(p, '?', p.len() as int);
        assert(query_start(s) == s.len());
        assert(query_start(p) == p.len());
        assert(p.take(p.len() as int) =~= s.push('/'));
        assert(s.take(s.len() as int) =~= s);
        assert(p.take(query_start(p)).drop_last() =~= s);
        assert(drop_trailing_slashes(p.take(query_start(p))) == drop_trailing_slashes(s));
    }
}

/// When the character sought occurs in `s`, pushing another character does
/// not change where it is first found.
proof fn lemma_first_index_unique_push(s: Seq<char>, c: char, x: char)
    requires
        0 <= first_index_of(s, c) < s.len(),
    ensures
        first_index_of(s.push(x), c) == first_index_of(s, c),
{
    lemma_first_index_of(s, c);
    let i = first_index_of(s, c);
    assert forall|j: int| 0 <= j < i implies s.push(x)[j] != c by {
        assert(s.push(x)[j] == s[j]);
    }
    assert(s.push(x)[i] == s[i]);
    crate::text::lemma_first_index_unique(s.push(x), c, i);
}

} // verus!
