//! Parsing of raw request text into a [`Request`].
use vstd::prelude::*;
use crate::text::{chars_of, find, find_from, occurs_at, push_char, string_of_range};

verus! {

/// The request methods that the parser recognises.
#[derive(Debug, Clone, Copy, PartialEq, Eq, Structural)]
pub enum HttpMethod {
    Get,
    Post,
    Head,
    Put,
    Delete,
    Connect,
    Options,
    Trace,
}

/// The pieces of `s` between the occurrences of `"\r\n"`, scanned left to right.
/// A pattern of two distinct characters cannot overlap itself, so this peels
/// the last character (or the last separator) off the end.
pub open spec fn split_crlf(s: Seq<char>) -> Seq<Seq<char>>
    decreases s.len(),
{
    if s.len() == 0 {
        seq![Seq::<char>::empty()]
    } else if s.len() >= 2 && s[s.len() - 2] == '\r' && s[s.len() - 1] == '\n' {
        split_crlf(s.take(s.len() - 2)).push(Seq::<char>::empty())
    } else {
        let p = split_crlf(s.take(s.len() - 1));
        p.update(p.len() - 1, p.last().push(s.last()))
    }
}

/// The pieces of `s` between the occurrences of the character `sep`.
pub open spec fn split_char(s: Seq<char>, sep: char) -> Seq<Seq<char>>
    decreases s.len(),
{
    if s.len() == 0 {
        seq![Seq::<char>::empty()]
    } else if s.last() == sep {
        split_char(s.take(s.len() - 1), sep).push(Seq::<char>::empty())
    } else {
        let p = split_char(s.take(s.len() - 1), sep);
        p.update(p.len() - 1, p.last().push(s.last()))
    }
}

/// The space-separated tokens of one line.
pub open spec fn tokens(line: Seq<char>) -> Seq<Seq<char>> {
    split_char(line, ' ')
}

/// The method named by a single token, if it is one of the eight keywords.
pub open spec fn method_of_token(t: Seq<char>) -> Option<HttpMethod> {
    if t == seq!['G', 'E', 'T'] {
        Some(HttpMethod::Get)
    } else if t == seq!['P', 'O', 'S', 'T'] {
        Some(HttpMethod::Post)
    } else if t == seq!['H', 'E', 'A', 'D'] {
        Some(HttpMethod::Head)
    } else if t == seq!['P', 'U', 'T'] {
        Some(HttpMethod::Put)
    } else if t == seq!['D', 'E', 'L', 'E', 'T', 'E'] {
        Some(HttpMethod::Delete)
    } else if t == seq!['C', 'O', 'N', 'N', 'E', 'C', 'T'] {
        Some(HttpMethod::Connect)
    } else if t == seq!['O', 'P', 'T', 'I', 'O', 'N', 'S'] {
        Some(HttpMethod::Options)
    } else if t == seq!['T', 'R', 'A', 'C', 'E'] {
        Some(HttpMethod::Trace)
    } else {
        None
    }
}

/// The method of the first token, in order, that names one.
pub open spec fn first_method_of_tokens(ts: Seq<Seq<char>>) -> Option<HttpMethod>
    decreases ts.len(),
{
    if ts.len() == 0 {
        None
    } else {
        match first_method_of_tokens(ts.drop_last()) {
            Some(m) => Some(m),
            None => method_of_token(ts.last()),
        }
    }
}

/// The first method keyword found scanning the lines in order, and the tokens
/// of each line in order.
pub open spec fn method_of_lines(lines: Seq<Seq<char>>) -> Option<HttpMethod>
    decreases lines.len(),
{
    if lines.len() == 0 {
        None
    } else {
        match method_of_lines(lines.drop_last()) {
            Some(m) => Some(m),
            None => first_method_of_tokens(tokens(lines.last())),
        }
    }
}

/// The header marker that introduces the user agent.
pub open spec fn agent_marker() -> Seq<char> {
    seq!['U', 's', 'e', 'r', '-', 'A', 'g', 'e', 'n', 't', ':', ' ']
}

/// The user agent reported when no line carries the marker.
pub open spec fn default_agent() -> Seq<char> {
    seq!['n', 'o', 'n', 'e']
}

/// The text after the first marker in one line, if the line has one.
pub open spec fn agent_of_line(line: Seq<char>) -> Option<Seq<char>> {
    match find_from(line, agent_marker(), 0) {
        Some(i) => Some(line.subrange(i + agent_marker().len(), line.len() as int)),
        None => None,
    }
}

/// The agent of the first line, in order, that carries the marker.
pub open spec fn agent_of_lines(lines: Seq<Seq<char>>) -> Option<Seq<char>>
    decreases lines.len(),
{
    if lines.len() == 0 {
        None
    } else {
        match agent_of_lines(lines.drop_last()) {
            Some(a) => Some(a),
            None => agent_of_line(lines.last()),
        }
    }
}

/// The user agent of a request split into lines.
pub open spec fn user_agent_of(lines: Seq<Seq<char>>) -> Seq<char> {
    match agent_of_lines(lines) {
        Some(a) => a,
        None => default_agent(),
    }
}

/// The target of a request split into lines: the second token of the first line.
pub open spec fn uri_of(lines: Seq<Seq<char>>) -> Seq<char> {
    tokens(lines[0])[1]
}

/// Whether raw request text has the minimal shape the parser needs: a first
/// line with at least two space-separated tokens.
pub open spec fn well_formed(s: Seq<char>) -> bool {
    tokens(split_crlf(s)[0]).len() >= 2
}

/// The views of a vector of strings.
pub open spec fn views(v: Seq<String>) -> Seq<Seq<char>> {
    v.map_values(|x: String| x@)
}

/// A request as the handlers see it. Every field but `raw_request` and
/// `client_address` is computed from `raw_request` when the request is built.
#[derive(Debug)]
pub struct Request {
    pub method: Option<HttpMethod>,
    pub uri: String,
    pub user_agent: String,
    pub raw_request: Vec<String>,
    pub client_address: String,
}


proof fn lemma_split_crlf_nonempty(s: Seq<char>)
    ensures
        split_crlf(s).len() >= 1,
    decreases s.len(),
{
    if s.len() >= 2 && s[s.len() - 2] == '\r' && s[s.len() - 1] == '\n' {
        lemma_split_crlf_nonempty(s.take(s.len() - 2));
    } else if s.len() > 0 {
        lemma_split_crlf_nonempty(s.take(s.len() - 1));
    }
}

proof fn lemma_first_method_prefix(ts: Seq<Seq<char>>, k: int)
    requires
        0 <= k <= ts.len(),
        first_method_of_tokens(ts.take(k)) is Some,
    ensures
        first_method_of_tokens(ts) == first_method_of_tokens(ts.take(k)),
    decreases ts.len(),
{
    if k == ts.len() {
        assert(ts.take(k) == ts);
    } else {
        assert(ts.drop_last().take(k) == ts.take(k));
        lemma_first_method_prefix(ts.drop_last(), k);
    }
}

proof fn lemma_method_lines_prefix(ls: Seq<Seq<char>>, k: int)
    requires
        0 <= k <= ls.len(),
        method_of_lines(ls.take(k)) is Some,
    ensures
        method_of_lines(ls) == method_of_lines(ls.take(k)),
    decreases ls.len(),
{
    if k == ls.len() {
        assert(ls.take(k) == ls);
    } else {
        assert(ls.drop_last().take(k) == ls.take(k));
        lemma_method_lines_prefix(ls.drop_last(), k);
    }
}

proof fn lemma_agent_lines_prefix(ls: Seq<Seq<char>>, k: int)
    requires
        0 <= k <= ls.len(),
        agent_of_lines(ls.take(k)) is Some,
    ensures
        agent_of_lines(ls) == agent_of_lines(ls.take(k)),
    decreases ls.len(),
{
    if k == ls.len() {
        assert(ls.take(k) == ls);
    } else {
        assert(ls.drop_last().take(k) == ls.take(k));
        lemma_agent_lines_prefix(ls.drop_last(), k);
    }
}

/// Splits `s` at each `sep` into owned character vectors.
fn split_tokens(s: &Vec<char>, sep: char) -> (r: Vec<Vec<char>>)
    ensures
        r@.map_values(|t: Vec<char>| t@) == split_char(s@, sep),
{
    let mut done: Vec<Vec<char>> = Vec::new();
    let mut cur: Vec<char> = Vec::new();
    let mut i: usize = 0;
    while i < s.len()
        invariant
            i <= s.len(),
            done@.map_values(|t: Vec<char>| t@).push(cur@) == split_char(s@.take(i as int), sep),
        decreases s.len() - i,
    {
        assert(s@.take(i + 1).take(i as int) == s@.take(i as int));
        let c = s[i];
        if c == sep {
            let t = cur;
            done.push(t);
            cur = Vec::new();
            assert(done@.map_values(|t: Vec<char>| t@) == split_char(s@.take(i as int), sep));
        } else {
            cur.push(c);
        }
        i = i + 1;
    }
    assert(s@.take(s.len() as int) == s@);
    done.push(cur);
    done
}


/// Whether two character vectors hold the same characters.
fn same_chars(a: &Vec<char>, b: &Vec<char>) -> (r: bool)
    ensures
        r == (a@ == b@),
{
    if a.len() != b.len() {
        return false;
    }
    let mut i: usize = 0;
    while i < a.len()
        invariant
            a.len() == b.len(),
            i <= a.len(),
            a@.take(i as int) == b@.take(i as int),
        decreases a.len() - i,
    {
        if a[i] != b[i] {
            assert(a@[i as int] != b@[i as int]);
            return false;
        }
        assert(a@.take(i + 1) =~= a@.take(i as int).push(a@[i as int]));
        assert(b@.take(i + 1) =~= b@.take(i as int).push(b@[i as int]));
        i = i + 1;
    }
    assert(a@ =~= a@.take(i as int));
    assert(b@ =~= b@.take(i as int));
    true
}

/// The method that one token names, if any.
fn token_method(t: &Vec<char>) -> (r: Option<HttpMethod>)
    ensures
        r == method_of_token(t@),
{
    if same_chars(t, &vec!['G', 'E', 'T']) {
        Some(HttpMethod::Get)
    } else if same_chars(t, &vec!['P', 'O', 'S', 'T']) {
        Some(HttpMethod::Post)
    } else if same_chars(t, &vec!['H', 'E', 'A', 'D']) {
        Some(HttpMethod::Head)
    } else if same_chars(t, &vec!['P', 'U', 'T']) {
        Some(HttpMethod::Put)
    } else if same_chars(t, &vec!['D', 'E', 'L', 'E', 'T', 'E']) {
        Some(HttpMethod::Delete)
    } else if same_chars(t, &vec!['C', 'O', 'N', 'N', 'E', 'C', 'T']) {
        Some(HttpMethod::Connect)
    } else if same_chars(t, &vec!['O', 'P', 'T', 'I', 'O', 'N', 'S']) {
        Some(HttpMethod::Options)
    } else if same_chars(t, &vec!['T', 'R', 'A', 'C', 'E']) {
        Some(HttpMethod::Trace)
    } else {
        None
    }
}

impl Request {

    /// Whether raw request text has a first line with at least two
    /// space-separated tokens, as [`Request::new`] needs.
    pub fn is_well_formed(request: &String) -> (r: bool)
        ensures
            r == well_formed(request@),
    {
        proof {
            lemma_split_crlf_nonempty(request@);
        }
        let lines = Request::split_to_row(request.clone());
        assert(lines@[0]@ == views(lines@)[0]);
        let first = chars_of(lines[0].as_str());
        let toks = split_tokens(&first, ' ');
        assert(toks@.len() == toks@.map_values(|t: Vec<char>| t@).len());
        toks.len() >= 2
    }

    /// The second space-separated token of the first line.
    pub fn get_uri(strings: &Vec<String>) -> (r: String)
        requires
            strings@.len() >= 1,
            tokens(strings@[0]@).len() >= 2,
        ensures
            r@ == uri_of(views(strings@)),
    {
        let line = chars_of(strings[0].as_str());
        let toks = split_tokens(&line, ' ');
        assert(toks@.map_values(|t: Vec<char>| t@)[1] == toks@[1]@);
        let t = &toks[1];
        assert(t@.subrange(0, t@.len() as int) == t@);
        string_of_range(t, 0, t.len())
    }

    /// The text after `"User-Agent: "` in the first line that holds it, or
    /// `"none"` when no line does.
    pub fn get_user_agent(strings: &Vec<String>) -> (r: String)
        ensures
            r@ == user_agent_of(views(strings@)),
    {
        let ghost ls = views(strings@);
        let marker = vec!['U', 's', 'e', 'r', '-', 'A', 'g', 'e', 'n', 't', ':', ' '];
        let mut i: usize = 0;
        while i < strings.len()
            invariant
                i <= strings.len(),
                ls == views(strings@),
                marker@ == agent_marker(),
                agent_of_lines(ls.take(i as int)) is None,
            decreases strings.len() - i,
        {
            assert(ls.take(i + 1).drop_last() == ls.take(i as int));
            assert(ls.take(i + 1).last() == ls[i as int]);
            let line = chars_of(strings[i].as_str());
            match find(&line, &marker) {
                Some(k) => {
                    assert(occurs_at(line@, marker@, k as int));
                    let n = line.len();
                    let agent = string_of_range(&line, k + marker.len(), n);
                    proof {
                        lemma_agent_lines_prefix(ls, i + 1);
                    }
                    return agent;
                },
                None => {},
            }
            i = i + 1;
        }
        assert(ls.take(i as int) == ls);
        let mut none = String::new();
        push_char(&mut none, 'n');
        push_char(&mut none, 'o');
        push_char(&mut none, 'n');
        push_char(&mut none, 'e');
        none
    }

    /// Builds a request from its raw text and the peer's address. Text whose
    /// first line has fewer than two tokens has no uri and is not accepted:
    /// callers test it with [`Request::is_well_formed`] first.
    pub fn new(request: String, client_address: String) -> (r: Request)
        requires
            well_formed(request@),
        ensures
            views(r.raw_request@) == split_crlf(request@),
            r.method == method_of_lines(split_crlf(request@)),
            r.uri@ == uri_of(split_crlf(request@)),
            r.user_agent@ == user_agent_of(split_crlf(request@)),
            r.client_address == client_address,
    {
        proof {
            lemma_split_crlf_nonempty(request@);
        }
        let lines = Request::split_to_row(request);
        assert(lines@[0]@ == views(lines@)[0]);
        let method = Request::get_method(&lines);
        let uri = Request::get_uri(&lines);
        let user_agent = Request::get_user_agent(&lines);
        Request { method, uri, user_agent, raw_request: lines, client_address }
    }

    /// The first method keyword in the text, scanning the lines in order and
    /// the space-separated tokens of each line in order; `None` if there is none.
    pub fn get_method(strings: &Vec<String>) -> (r: Option<HttpMethod>)
        ensures
            r == method_of_lines(views(strings@)),
    {
        let ghost ls = views(strings@);
        let mut i: usize = 0;
        while i < strings.len()
            invariant
                i <= strings.len(),
                ls == views(strings@),
                method_of_lines(ls.take(i as int)) is None,
            decreases strings.len() - i,
        {
            assert(ls.take(i + 1).drop_last() == ls.take(i as int));
            let line = chars_of(strings[i].as_str());
            let toks = split_tokens(&line, ' ');
            let ghost ts = toks@.map_values(|t: Vec<char>| t@);
            let mut j: usize = 0;
            while j < toks.len()
                invariant
                    j <= toks.len(),
                    i < strings.len(),
                    ls == views(strings@),
                    method_of_lines(ls.take(i as int)) is None,
                    ts == toks@.map_values(|t: Vec<char>| t@),
                    ts == tokens(ls[i as int]),
                    first_method_of_tokens(ts.take(j as int)) is None,
                decreases toks.len() - j,
            {
                assert(ts.take(j + 1).drop_last() == ts.take(j as int));
                let m = token_method(&toks[j]);
                if m.is_some() {
                    proof {
                        lemma_first_method_prefix(ts, j + 1);
                        assert(ls.take(i + 1).drop_last() == ls.take(i as int));
                        assert(ls.take(i + 1).last() == ls[i as int]);
                        assert(first_method_of_tokens(ts) == m);
                        assert(method_of_lines(ls.take(i + 1)) == m);
                        lemma_method_lines_prefix(ls, i + 1);
                    }
                    return m;
                }
                j = j + 1;
            }
            assert(ts.take(j as int) == ts);
            i = i + 1;
        }
        assert(ls.take(i as int) == ls);
        None
    }
    /// Splits raw request text into its lines, at each `"\r\n"`.
    pub fn split_to_row(string: String) -> (r: Vec<String>)
        ensures
            views(r@) == split_crlf(string@),
    {
        let s = chars_of(string.as_str());
        let mut done: Vec<String> = Vec::new();
        let mut cur = String::new();
        let mut i: usize = 0;
        while i < s.len()
            invariant
                i <= s.len(),
                s@ == string@,
                views(done@).push(cur@) == split_crlf(s@.take(i as int)),
                0 < i < s.len() && s@[i - 1] == '\r' ==> s@[i as int] != '\n',
            decreases s.len() - i,
        {
            if s[i] == '\r' && i + 1 < s.len() && s[i + 1] == '\n' {
                assert(s@.take(i + 2).take(i as int) == s@.take(i as int));
                let t = cur;
                done.push(t);
                cur = String::new();
                assert(views(done@) == views(done@).drop_last().push(t@));
                i = i + 2;
            } else {
                assert(s@.take(i + 1).take(i as int) == s@.take(i as int));
                push_char(&mut cur, s[i]);
                assert(views(done@).push(cur@) =~= split_crlf(s@.take(i + 1)));
                i = i + 1;
            }
        }
        assert(s@.take(s.len() as int) == s@);
        done.push(cur);
        assert(views(done@) =~= views(done@).drop_last().push(cur@));
        done
    }
}

} // verus!
