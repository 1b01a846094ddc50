//! Recognition of pipeline web URLs of the shape
//! `http[s]://<host>/<project>[/-]/pipelines/<id>` followed by optional whitespace.
use vstd::prelude::*;

verus! {

/// The shape accepted by [`PipelineUrl::parse`], as a regular expression.
pub const PIPELINE: &'static str =
    "\\A(https?://[-.0-9a-zA-Z]+)/([-./0-9a-zA-Z]+?)(?:/-)?/pipelines/(\\d+)\\s*\\z";

/// A character allowed in a host name.
pub open spec fn is_host_char(c: char) -> bool {
    ||| c == '-'
    ||| c == '.'
    ||| ('0' <= c && c <= '9')
    ||| ('a' <= c && c <= 'z')
    ||| ('A' <= c && c <= 'Z')
}

/// A character allowed in a project path.
pub open spec fn is_path_char(c: char) -> bool {
    is_host_char(c) || c == '/'
}

pub open spec fn is_digit(c: char) -> bool {
    '0' <= c && c <= '9'
}

/// ASCII whitespace: space, tab, line feed, vertical tab, form feed, carriage return.
pub open spec fn is_space(c: char) -> bool {
    c == ' ' || c == '\t' || c == '\n' || c == '\x0B' || c == '\x0C' || c == '\r'
}

/// Every character of `s` in `[lo, hi)` is a host character.
pub open spec fn all_host(s: Seq<char>, lo: int, hi: int) -> bool {
    forall|i: int| lo <= i < hi ==> is_host_char(#[trigger] s[i])
}

/// Every character of `s` in `[lo, hi)` is a path character.
pub open spec fn all_path(s: Seq<char>, lo: int, hi: int) -> bool {
    forall|i: int| lo <= i < hi ==> is_path_char(#[trigger] s[i])
}

/// Every character of `s` in `[lo, hi)` is a decimal digit.
pub open spec fn all_digits(s: Seq<char>, lo: int, hi: int) -> bool {
    forall|i: int| lo <= i < hi ==> is_digit(#[trigger] s[i])
}

/// Every character of `s` in `[lo, hi)` is whitespace.
pub open spec fn all_spaces(s: Seq<char>, lo: int, hi: int) -> bool {
    forall|i: int| lo <= i < hi ==> is_space(#[trigger] s[i])
}

/// `s` holds `w` starting at position `at`.
pub open spec fn occurs_at(s: Seq<char>, at: int, w: Seq<char>) -> bool {
    0 <= at && at + w.len() <= s.len() && s.subrange(at, at + w.len()) == w
}

pub open spec fn http_scheme() -> Seq<char> {
    seq!['h', 't', 't', 'p', ':', '/', '/']
}

pub open spec fn https_scheme() -> Seq<char> {
    seq!['h', 't', 't', 'p', 's', ':', '/', '/']
}

pub open spec fn pipelines_marker() -> Seq<char> {
    seq!['/', 'p', 'i', 'p', 'e', 'l', 'i', 'n', 'e', 's', '/']
}

/// The escape that stands for `/` in an encoded project path.
pub open spec fn slash_escape() -> Seq<char> {
    seq!['%', '2', 'F']
}

/// `o` is a scheme (`http://` or `https://`) followed by a non-empty host.
pub open spec fn is_origin(o: Seq<char>) -> bool {
    ||| (occurs_at(o, 0, http_scheme()) && o.len() > 7 && all_host(o, 7, o.len() as int))
    ||| (occurs_at(o, 0, https_scheme()) && o.len() > 8 && all_host(o, 8, o.len() as int))
}

/// One way of reading `s` as a pipeline URL: the origin is `s[0..a]`, the
/// project path `s[a+1..b]`, the optional `/-` segment `s[b..c]`, the
/// `/pipelines/` marker `s[c..c+11]`, the id `s[c+11..d]` and the trailing
/// whitespace `s[d..]`.
pub open spec fn is_match(s: Seq<char>, a: int, b: int, c: int, d: int) -> bool {
    &&& 0 < a < s.len()
    &&& is_origin(s.subrange(0, a))
    &&& s[a] == '/'
    &&& a + 1 < b
    &&& all_path(s, a + 1, b)
    &&& (c == b || (c == b + 2 && s[b] == '/' && s[b + 1] == '-'))
    &&& occurs_at(s, c, pipelines_marker())
    &&& c + 11 < d <= s.len()
    &&& all_digits(s, c + 11, d)
    &&& all_spaces(s, d, s.len() as int)
}

/// The reading that the pattern selects: the project path is as short as possible.
pub open spec fn is_lazy_match(s: Seq<char>, a: int, b: int, c: int, d: int) -> bool {
    &&& is_match(s, a, b, c, d)
    &&& forall|a2: int, b2: int, c2: int, d2: int| #[trigger]
        is_match(s, a2, b2, c2, d2) ==> b <= b2
}

/// `p` with every `/` replaced by `%2F`, all other characters kept, in one pass.
pub open spec fn encode_path(p: Seq<char>) -> Seq<char>
    decreases p.len(),
{
    if p.len() == 0 {
        Seq::empty()
    } else {
        let last = if p.last() == '/' {
            slash_escape()
        } else {
            seq![p.last()]
        };
        encode_path(p.drop_last()) + last
    }
}

/// What a successful parse of `s` holds: origin, encoded project path, id.
pub open spec fn parse_spec(s: Seq<char>) -> Option<(Seq<char>, Seq<char>, Seq<char>)> {
    if exists|a: int, b: int, c: int, d: int| is_lazy_match(s, a, b, c, d) {
        let (a, b, c, d) = choose|a: int, b: int, c: int, d: int| is_lazy_match(s, a, b, c, d);
        Some((s.subrange(0, a), encode_path(s.subrange(a + 1, b)), s.subrange(c + 11, d)))
    } else {
        None
    }
}

/// A pipeline reference: where the API is, which project, which pipeline.
pub struct PipelineUrl {
    /// Scheme and host, such as `https://gitlab.example.com`.
    pub gitlab: String,
    /// The project path with every `/` written `%2F`.
    pub project: String,
    /// The pipeline's numeric id, as written.
    pub id: String,
}

impl View for PipelineUrl {
    type V = (Seq<char>, Seq<char>, Seq<char>);

    open spec fn view(&self) -> (Seq<char>, Seq<char>, Seq<char>) {
        (self.gitlab@, self.project@, self.id@)
    }
}

/// Encodes a project path as one URL path segment: each `/` becomes `%2F`.
pub fn encode_project_path(path: &str) -> (r: String)
    ensures
        r@ == encode_path(path@),
{
    let n = path.unicode_len();
    let mut out = String::new();
    let mut i: usize = 0;
    while i < n
        invariant
            n == path@.len(),
            i <= n,
            out@ == encode_path(path@.subrange(0, i as int)),
        decreases n - i,
    {
        let c = path.get_char(i);
        if c == '/' {
            out.append("%2F");
        } else {
            out.append(path.substring_char(i, i + 1));
        }
        proof {
            reveal_strlit("%2F");
            let next = path@.subrange(0, i + 1);
            assert(next.drop_last() =~= path@.subrange(0, i as int));
            assert(path@.subrange(i as int, i + 1) =~= seq![c]);
        }
        i = i + 1;
    }
    proof {
        assert(path@.subrange(0, n as int) =~= path@);
    }
    out
}

/// `s[k..a]` is the longest run of host characters that starts at `k`.
pub open spec fn host_run(s: Seq<char>, k: int, a: int) -> bool {
    &&& 0 <= k <= a <= s.len()
    &&& all_host(s, k, a)
    &&& (a == s.len() || !is_host_char(s[a]))
}

/// `s[d..]` is the longest run of whitespace that ends the string.
pub open spec fn space_tail(s: Seq<char>, d: int) -> bool {
    &&& 0 <= d <= s.len()
    &&& all_spaces(s, d, s.len() as int)
    &&& (d == 0 || !is_space(s[d - 1]))
}

/// `s[e..d]` is the longest run of digits that ends at `d`.
pub open spec fn digit_run(s: Seq<char>, e: int, d: int) -> bool {
    &&& 0 <= e <= d <= s.len()
    &&& all_digits(s, e, d)
    &&& (e == 0 || !is_digit(s[e - 1]))
}

/// The length of the scheme that `s` starts with.
pub open spec fn scheme_len_of(s: Seq<char>, k: int) -> bool {
    ||| (k == 7 && occurs_at(s, 0, http_scheme()))
    ||| (k == 8 && occurs_at(s, 0, https_scheme()))
}

/// Any reading of `s` ends its origin where the host run ends.
proof fn lemma_origin_end(s: Seq<char>, k: int, a: int, a2: int)
    requires
        scheme_len_of(s, k),
        host_run(s, k, a),
        0 < a2 < s.len(),
        is_origin(s.subrange(0, a2)),
        s[a2] == '/',
    ensures
        a2 == a,
{
    let o = s.subrange(0, a2);
    assert(http_scheme()[4] == ':');
    assert(https_scheme()[4] == 's');
    if occurs_at(o, 0, http_scheme()) && o.len() > 7 && all_host(o, 7, o.len() as int) {
        assert(o.subrange(0, 7)[4] == o[4]);
        assert(s[4] == ':');
        if k == 8 {
            assert(s.subrange(0, 8)[4] == s[4]);
        }
        assert(k == 7);
    } else {
        assert(o.subrange(0, 8)[4] == o[4]);
        assert(s[4] == 's');
        if k == 7 {
            assert(s.subrange(0, 7)[4] == s[4]);
        }
        assert(k == 8);
    }
    assert forall|i: int| k <= i < a2 implies is_host_char(#[trigger] s[i]) by {
        assert(o[i] == s[i]);
    }
    if a2 < a {
        assert(is_host_char(s[a2]));
    }
    if a < a2 {
        assert(is_host_char(s[a]));
    }
}

/// Any reading of `s` has its id where the final digit run stands.
proof fn lemma_id_place(s: Seq<char>, e: int, d: int, c2: int, d2: int)
    requires
        space_tail(s, d),
        digit_run(s, e, d),
        occurs_at(s, c2, pipelines_marker()),
        c2 + 11 < d2 <= s.len(),
        all_digits(s, c2 + 11, d2),
        all_spaces(s, d2, s.len() as int),
    ensures
        d2 == d,
        c2 + 11 == e,
{
    if d2 < d {
        assert(is_space(s[d - 1]));
    }
    if d2 > d {
        assert(is_digit(s[d2 - 1]));
        assert(is_space(s[d2 - 1]));
    }
    assert(s.subrange(c2, c2 + 11)[10] == s[c2 + 10]);
    assert(s[c2 + 10] == '/');
    if c2 + 11 < e {
        assert(is_digit(s[e - 1]));
    }
    if c2 + 11 > e {
        assert(is_digit(s[c2 + 10]));
    }
}

/// Any reading of `s` splits it at the given origin end, marker and id end.
proof fn lemma_match_pinned(
    s: Seq<char>,
    k: int,
    a: int,
    e: int,
    d: int,
    a2: int,
    b2: int,
    c2: int,
    d2: int,
)
    requires
        scheme_len_of(s, k),
        host_run(s, k, a),
        space_tail(s, d),
        digit_run(s, e, d),
        is_match(s, a2, b2, c2, d2),
    ensures
        a2 == a,
        d2 == d,
        c2 + 11 == e,
{
    lemma_origin_end(s, k, a, a2);
    lemma_id_place(s, e, d, c2, d2);
}

fn host_char(c: char) -> (r: bool)
    ensures
        r == is_host_char(c),
{
    c == '-' || c == '.' || ('0' <= c && c <= '9') || ('a' <= c && c <= 'z') || ('A' <= c
        && c <= 'Z')
}

fn path_char(c: char) -> (r: bool)
    ensures
        r == is_path_char(c),
{
    host_char(c) || c == '/'
}

fn digit_char(c: char) -> (r: bool)
    ensures
        r == is_digit(c),
{
    '0' <= c && c <= '9'
}

fn space_char(c: char) -> (r: bool)
    ensures
        r == is_space(c),
{
    c == ' ' || c == '\t' || c == '\n' || c == '\x0B' || c == '\x0C' || c == '\r'
}

/// Whether `s` holds `w` at position `at`.
fn holds_at(s: &str, n: usize, at: usize, w: &str) -> (r: bool)
    requires
        n == s@.len(),
    ensures
        r == occurs_at(s@, at as int, w@),
{
    let m = w.unicode_len();
    if at > n || m > n - at {
        return false;
    }
    let mut j: usize = 0;
    while j < m
        invariant
            n == s@.len(),
            m == w@.len(),
            at + m <= n,
            j <= m,
            forall|i: int| 0 <= i < j ==> s@[at + i] == w@[i],
        decreases m - j,
    {
        if s.get_char(at + j) != w.get_char(j) {
            assert(s@.subrange(at as int, at + m)[j as int] == s@[at + j]);
            return false;
        }
        j = j + 1;
    }
    assert(s@.subrange(at as int, at + m) =~= w@);
    true
}

/// Encoding leaves a path without `/` as it is, so an escape such as `%2F`
/// that is already in it is kept and not escaped again.
pub proof fn lemma_encode_keeps_slash_free(p: Seq<char>)
    requires
        !p.contains('/'),
    ensures
        encode_path(p) == p,
    decreases p.len(),
{
    if p.len() > 0 {
        assert(!p.drop_last().contains('/')) by {
            if p.drop_last().contains('/') {
                let i = choose|i: int| 0 <= i < p.drop_last().len() && p.drop_last()[i] == '/';
                assert(p[i] == '/');
            }
        }
        lemma_encode_keeps_slash_free(p.drop_last());
        assert(p.last() != '/');
        assert(p.drop_last() + seq![p.last()] =~= p);
    }
}

/// An encoded path holds no `/`.
pub proof fn lemma_encode_has_no_slash(p: Seq<char>)
    ensures
        !encode_path(p).contains('/'),
    decreases p.len(),
{
    if p.len() > 0 {
        lemma_encode_has_no_slash(p.drop_last());
        let prev = encode_path(p.drop_last());
        let last = if p.last() == '/' {
            slash_escape()
        } else {
            seq![p.last()]
        };
        assert(!last.contains('/'));
        if (prev + last).contains('/') {
            let i = choose|i: int| 0 <= i < (prev + last).len() && (prev + last)[i] == '/';
            if i < prev.len() {
                assert(prev[i] == '/');
            } else {
                assert(last[i - prev.len()] == '/');
            }
        }
    }
}

/// Encoding is a single pass: encoding an encoded path changes nothing.
pub proof fn lemma_encode_idempotent(p: Seq<char>)
    ensures
        encode_path(encode_path(p)) == encode_path(p),
{
    lemma_encode_has_no_slash(p);
    lemma_encode_keeps_slash_free(encode_path(p));
}

/// A string that can be read as a pipeline URL at all is parsed: the
/// reading with the shortest project path exists.
pub proof fn lemma_match_is_parsed(s: Seq<char>, a: int, b: int, c: int, d: int)
    requires
        is_match(s, a, b, c, d),
    ensures
        parse_spec(s) is Some,
    decreases b,
{
    if exists|a2: int, b2: int, c2: int, d2: int| is_match(s, a2, b2, c2, d2) && b2 < b {
        let (a2, b2, c2, d2) = choose|a2: int, b2: int, c2: int, d2: int|
            is_match(s, a2, b2, c2, d2) && b2 < b;
        lemma_match_is_parsed(s, a2, b2, c2, d2);
    } else {
        assert(is_lazy_match(s, a, b, c, d));
    }
}

/// A string that cannot be read as a pipeline URL is not parsed.
pub proof fn lemma_no_match_not_parsed(s: Seq<char>)
    requires
        forall|a: int, b: int, c: int, d: int| !#[trigger] is_match(s, a, b, c, d),
    ensures
        parse_spec(s) is None,
{
}

/// A string read as a pipeline URL, with the shortest project path, parses to
/// exactly its origin, its project path with each `/` written `%2F`, and its id.
pub proof fn lemma_parse_of_reading(s: Seq<char>, a: int, b: int, c: int, d: int)
    requires
        is_lazy_match(s, a, b, c, d),
    ensures
        parse_spec(s) == Some(
            (s.subrange(0, a), encode_path(s.subrange(a + 1, b)), s.subrange(c + 11, d)),
        ),
{
    let o = s.subrange(0, a);
    let k: int = if occurs_at(o, 0, http_scheme()) && o.len() > 7 && all_host(o, 7, a) {
        7
    } else {
        8
    };
    assert(o.subrange(0, k) =~= s.subrange(0, k));
    assert(scheme_len_of(s, k));
    assert forall|i: int| k <= i < a implies is_host_char(#[trigger] s[i]) by {
        assert(o[i] == s[i]);
    }
    assert(host_run(s, k, a));
    assert(is_digit(s[d - 1]));
    assert(space_tail(s, d));
    assert(s.subrange(c, c + 11)[10] == s[c + 10]);
    assert(digit_run(s, c + 11, d));
    let (a1, b1, c1, d1) = choose|a1: int, b1: int, c1: int, d1: int|
        is_lazy_match(s, a1, b1, c1, d1);
    lemma_match_pinned(s, k, a, c + 11, d, a1, b1, c1, d1);
    assert(b1 <= b && b <= b1);
}

/// Encoding never shortens a path.
proof fn lemma_encode_len(p: Seq<char>)
    ensures
        encode_path(p).len() >= p.len(),
    decreases p.len(),
{
    if p.len() > 0 {
        lemma_encode_len(p.drop_last());
    }
}

impl PipelineUrl {
    /// Reads `s` as a pipeline URL. Gives `None` where `s` has another shape.
    pub fn parse(s: &String) -> (r: Option<PipelineUrl>)
        ensures
            match r {
                Some(p) => {
                    &&& parse_spec(s@) == Some(p@)
                    &&& p.gitlab@.len() > 0
                    &&& p.project@.len() > 0
                    &&& p.id@.len() > 0
                },
                None => parse_spec(s@) is None,
            },
    {
        let t = s.as_str();
        let n = t.unicode_len();
        let sq = Ghost(t@);
        proof {
            reveal_strlit("http://");
            reveal_strlit("https://");
            reveal_strlit("/pipelines/");
            assert("http://"@ =~= http_scheme());
            assert("https://"@ =~= https_scheme());
            assert("/pipelines/"@ =~= pipelines_marker());
        }
        let k: usize = if holds_at(t, n, 0, "https://") {
            8
        } else if holds_at(t, n, 0, "http://") {
            7
        } else {
            proof {
                assert forall|a2: int, b2: int, c2: int, d2: int|
                    !#[trigger] is_match(sq@, a2, b2, c2, d2) by {
                    if is_match(sq@, a2, b2, c2, d2) {
                        let o = sq@.subrange(0, a2);
                        if occurs_at(o, 0, http_scheme()) && o.len() > 7 {
                            assert(sq@.subrange(0, 7) =~= o.subrange(0, 7));
                        } else {
                            assert(sq@.subrange(0, 8) =~= o.subrange(0, 8));
                        }
                    }
                }
            }
            return None;
        };
        let mut a: usize = k;
        while a < n && host_char(t.get_char(a))
            invariant
                n == sq@.len(),
                t@ == sq@,
                k <= a <= n,
                all_host(sq@, k as int, a as int),
            decreases n - a,
        {
            a = a + 1;
        }
        let mut d: usize = n;
        while d > 0 && space_char(t.get_char(d - 1))
            invariant
                n == sq@.len(),
                t@ == sq@,
                d <= n,
                all_spaces(sq@, d as int, n as int),
            decreases d,
        {
            d = d - 1;
        }
        let mut e: usize = d;
        while e > 0 && digit_char(t.get_char(e - 1))
            invariant
                n == sq@.len(),
                t@ == sq@,
                e <= d <= n,
                all_digits(sq@, e as int, d as int),
            decreases e,
        {
            e = e - 1;
        }
        proof {
            assert(scheme_len_of(sq@, k as int));
            assert(host_run(sq@, k as int, a as int));
            assert(space_tail(sq@, d as int));
            assert(digit_run(sq@, e as int, d as int));
        }
        if a == k || a >= n || t.get_char(a) != '/' || e == d || e < 11 || !holds_at(
            t,
            n,
            e - 11,
            "/pipelines/",
        ) {
            proof {
                assert forall|a2: int, b2: int, c2: int, d2: int|
                    !#[trigger] is_match(sq@, a2, b2, c2, d2) by {
                    if is_match(sq@, a2, b2, c2, d2) {
                        lemma_match_pinned(sq@, k as int, a as int, e as int, d as int, a2, b2, c2, d2);
                    }
                }
            }
            return None;
        }
        let c: usize = e - 11;
        let b: usize = if c >= a + 4 && t.get_char(c - 2) == '/' && t.get_char(c - 1) == '-' {
            c - 2
        } else {
            c
        };
        proof {
            assert forall|a2: int, b2: int, c2: int, d2: int|
                #[trigger] is_match(sq@, a2, b2, c2, d2) implies a + 1 < b && b <= b2 && all_path(
                sq@,
                a + 1,
                b as int,
            ) by {
                lemma_match_pinned(sq@, k as int, a as int, e as int, d as int, a2, b2, c2, d2);
                if b2 == c2 - 2 {
                    assert(b == b2);
                }
            }
        }
        if b <= a + 1 {
            return None;
        }
        let mut j: usize = a + 1;
        while j < b && path_char(t.get_char(j))
            invariant
                n == sq@.len(),
                t@ == sq@,
                a + 1 <= j <= b,
                b <= n,
                all_path(sq@, a + 1, j as int),
            decreases b - j,
        {
            j = j + 1;
        }
        if j < b {
            proof {
                assert forall|a2: int, b2: int, c2: int, d2: int|
                    !#[trigger] is_match(sq@, a2, b2, c2, d2) by {
                    if is_match(sq@, a2, b2, c2, d2) {
                        assert(is_path_char(sq@[j as int]));
                    }
                }
            }
            return None;
        }
        proof {
            let o = sq@.subrange(0, a as int);
            assert(o.subrange(0, k as int) =~= sq@.subrange(0, k as int));
            assert forall|i: int| k <= i < a implies is_host_char(#[trigger] o[i]) by {
                assert(o[i] == sq@[i]);
            }
            assert(is_origin(o));
        }
        proof {
            assert(is_match(sq@, a as int, b as int, c as int, d as int));
            assert(is_lazy_match(sq@, a as int, b as int, c as int, d as int));
            let (a1, b1, c1, d1) = choose|a1: int, b1: int, c1: int, d1: int|
                is_lazy_match(sq@, a1, b1, c1, d1);
            lemma_match_pinned(sq@, k as int, a as int, e as int, d as int, a1, b1, c1, d1);
            assert(b1 <= b);
        }
        let gitlab = String::from_str(t.substring_char(0, a));
        let project = encode_project_path(t.substring_char(a + 1, b));
        proof {
            lemma_encode_len(sq@.subrange(a + 1, b as int));
        }
        let id = String::from_str(t.substring_char(e, d));
        Some(PipelineUrl { gitlab, project, id })
    }
}

} // verus!
