//! Server nodes: endpoints, URL-to-endpoint matching with `:name` path
//! parameters, the active-execution table, and the handler execution
//! engine that replays a script to its next suspension point.

use vstd::prelude::*;
use vstd::string::StrSliceExecFns;
use vstd::string::StringExecFns;
use crate::json::{jval, JVal, JsonValue};
use crate::message::{Request, Response};
use crate::node::client::HttpMethod;
use crate::strutil::{chars_to_string, str_to_chars};

verus! {

broadcast use vstd::std_specs::vec::group_vec_axioms, vstd::seq::group_seq_axioms;

/// The character sequences behind a sequence of character vectors.
pub open spec fn vv(s: Seq<Vec<char>>) -> Seq<Seq<char>> {
    Seq::new(s.len(), |i: int| s[i]@)
}

/// Splitting a character sequence on a separator.  A split always has at
/// least one segment; the empty sequence splits into one empty segment.
pub open spec fn split_seq(s: Seq<char>, sep: char) -> Seq<Seq<char>>
    decreases s.len(),
{
    if s.len() == 0 {
        seq![Seq::<char>::empty()]
    } else if s[0] == sep {
        seq![Seq::<char>::empty()] + split_seq(s.subrange(1, s.len() as int), sep)
    } else {
        let rest = split_seq(s.subrange(1, s.len() as int), sep);
        seq![seq![s[0]] + rest[0]] + rest.subrange(1, rest.len() as int)
    }
}

/// A split has at least one segment.
pub proof fn lemma_split_len(s: Seq<char>, sep: char)
    ensures
        split_seq(s, sep).len() >= 1,
    decreases s.len(),
{
    if s.len() > 0 {
        lemma_split_len(s.subrange(1, s.len() as int), sep);
    }
}

/// Splits `s[from..]` on `sep`.
fn split_chars(s: &Vec<char>, from: usize, sep: char) -> (r: Vec<Vec<char>>)
    requires
        from <= s@.len(),
    ensures
        vv(r@) == split_seq(s@.subrange(from as int, s@.len() as int), sep),
        r@.len() >= 1,
    decreases s@.len() - from,
{
    let ghost tail = s@.subrange(from as int, s@.len() as int);
    if from >= s.len() {
        let mut r: Vec<Vec<char>> = Vec::new();
        let seg: Vec<char> = Vec::new();
        r.push(seg);
        proof {
            assert(tail.len() == 0);
            assert(vv(r@) =~= split_seq(tail, sep));
        }
        r
    } else if s[from] == sep {
        let mut rest = split_chars(s, from + 1, sep);
        let seg: Vec<char> = Vec::new();
        rest.insert(0, seg);
        proof {
            assert(tail.subrange(1, tail.len() as int) =~= s@.subrange(
                from as int + 1,
                s@.len() as int,
            ));
            assert(vv(rest@) =~= split_seq(tail, sep));
        }
        rest
    } else {
        let c = s[from];
        let mut rest = split_chars(s, from + 1, sep);
        let mut first = rest.remove(0);
        first.insert(0, c);
        rest.insert(0, first);
        proof {
            let subtail = s@.subrange(from as int + 1, s@.len() as int);
            assert(tail.subrange(1, tail.len() as int) =~= subtail);
            let spec_rest = split_seq(subtail, sep);
            lemma_split_len(subtail, sep);
            assert(first@ =~= seq![c] + spec_rest[0]);
            assert(vv(rest@) =~= seq![seq![tail[0]] + spec_rest[0]] + spec_rest.subrange(
                1,
                spec_rest.len() as int,
            ));
            assert(vv(rest@) =~= split_seq(tail, sep));
        }
        rest
    }
}

/// Splits the characters of a path on `/`.
pub fn split_path(path: &str) -> (r: Vec<Vec<char>>)
    ensures
        vv(r@) == split_seq(path@, '/'),
        r@.len() >= 1,
{
    let chars = str_to_chars(path);
    let r = split_chars(&chars, 0, '/');
    proof {
        assert(chars@.subrange(0, chars@.len() as int) =~= path@);
    }
    r
}

/// Whether an endpoint path segment is a `:name` parameter.
pub open spec fn is_param_seg(seg: Seq<char>) -> bool {
    seg.len() > 0 && seg[0] == ':'
}

/// Whether a URL segment matches an endpoint segment: a parameter matches
/// anything, any other segment only itself.
pub open spec fn seg_match(u: Seq<char>, e: Seq<char>) -> bool {
    is_param_seg(e) || u == e
}

/// Whether a URL matches an endpoint path: equal segment counts, and
/// every segment matches.
pub open spec fn segs_match(us: Seq<Seq<char>>, es: Seq<Seq<char>>) -> bool {
    us.len() == es.len() && forall|i: int| 0 <= i < us.len() ==> seg_match(us[i], es[i])
}

/// Whether `url` matches the endpoint path `ep`.
pub open spec fn path_matches(url: Seq<char>, ep: Seq<char>) -> bool {
    segs_match(split_seq(url, '/'), split_seq(ep, '/'))
}

/// The parameter bindings a match produces: for every `:name` segment,
/// the name (without the colon) bound to the URL segment, in order.
pub open spec fn params_of(us: Seq<Seq<char>>, es: Seq<Seq<char>>) -> Seq<(Seq<char>, Seq<char>)>
    decreases es.len(),
{
    if es.len() == 0 || us.len() == 0 {
        Seq::empty()
    } else {
        let head: Seq<(Seq<char>, Seq<char>)> = if is_param_seg(es[0]) {
            seq![(es[0].subrange(1, es[0].len() as int), us[0])]
        } else {
            Seq::empty()
        };
        head + params_of(
            us.subrange(1, us.len() as int),
            es.subrange(1, es.len() as int),
        )
    }
}

/// The first endpoint path in `eps` that `url` matches.
pub open spec fn first_match(url: Seq<char>, eps: Seq<Seq<char>>) -> Option<int>
    decreases eps.len(),
{
    if eps.len() == 0 {
        None
    } else if path_matches(url, eps[0]) {
        Some(0int)
    } else {
        match first_match(url, eps.subrange(1, eps.len() as int)) {
            Some(i) => Some(i + 1),
            None => None,
        }
    }
}

/// Matching respects segment counts: a URL whose segment count differs
/// from every candidate's matches none of them.
pub proof fn lemma_match_requires_equal_counts(url: Seq<char>, eps: Seq<Seq<char>>)
    requires
        forall|j: int|
            0 <= j < eps.len() ==> split_seq(url, '/').len() != (#[trigger] split_seq(
                eps[j],
                '/',
            )).len(),
    ensures
        first_match(url, eps) is None,
{
    assert forall|j: int| 0 <= j < eps.len() implies !path_matches(url, eps[j]) by {
        assert(split_seq(url, '/').len() != split_seq(eps[j], '/').len());
    }
    lemma_first_match_none(url, eps);
}

/// `first_match` from its characterization.
pub proof fn lemma_first_match_value(url: Seq<char>, eps: Seq<Seq<char>>, k: int)
    requires
        0 <= k < eps.len(),
        path_matches(url, eps[k]),
        forall|j: int| 0 <= j < k ==> !path_matches(url, eps[j]),
    ensures
        first_match(url, eps) == Some(k),
    decreases eps.len(),
{
    if k > 0 {
        let sub = eps.subrange(1, eps.len() as int);
        assert(sub[k - 1] == eps[k]);
        assert forall|j: int| 0 <= j < k - 1 implies !path_matches(url, sub[j]) by {
            assert(sub[j] == eps[j + 1]);
        }
        lemma_first_match_value(url, sub, k - 1);
    }
}

/// When nothing matches, `first_match` is `None`.
pub proof fn lemma_first_match_none(url: Seq<char>, eps: Seq<Seq<char>>)
    requires
        forall|j: int| 0 <= j < eps.len() ==> !path_matches(url, eps[j]),
    ensures
        first_match(url, eps) is None,
    decreases eps.len(),
{
    if eps.len() > 0 {
        let sub = eps.subrange(1, eps.len() as int);
        assert forall|j: int| 0 <= j < sub.len() implies !path_matches(url, sub[j]) by {
            assert(sub[j] == eps[j + 1]);
        }
        lemma_first_match_none(url, sub);
    }
}

/// Appending a segment pair extends the parameter bindings.
pub proof fn lemma_params_of_snoc(
    us: Seq<Seq<char>>,
    es: Seq<Seq<char>>,
    u: Seq<char>,
    e: Seq<char>,
)
    requires
        us.len() == es.len(),
    ensures
        params_of(us.push(u), es.push(e)) == params_of(us, es) + (if is_param_seg(e) {
            seq![(e.subrange(1, e.len() as int), u)]
        } else {
            Seq::<(Seq<char>, Seq<char>)>::empty()
        }),
    decreases es.len(),
{
    let tail: Seq<(Seq<char>, Seq<char>)> = if is_param_seg(e) {
        seq![(e.subrange(1, e.len() as int), u)]
    } else {
        Seq::empty()
    };
    if es.len() == 0 {
        reveal_with_fuel(params_of, 2);
        assert(us.push(u)[0] == u);
        assert(es.push(e)[0] == e);
        assert(us.push(u).subrange(1, 1) =~= Seq::<Seq<char>>::empty());
        assert(es.push(e).subrange(1, 1) =~= Seq::<Seq<char>>::empty());
        assert(params_of(us.push(u), es.push(e)) =~= params_of(us, es) + tail);
    } else {
        assert(us.push(u).subrange(1, us.len() as int + 1) =~= us.subrange(
            1,
            us.len() as int,
        ).push(u));
        assert(es.push(e).subrange(1, es.len() as int + 1) =~= es.subrange(
            1,
            es.len() as int,
        ).push(e));
        lemma_params_of_snoc(
            us.subrange(1, us.len() as int),
            es.subrange(1, es.len() as int),
            u,
            e,
        );
        assert(us.push(u)[0] == us[0]);
        assert(es.push(e)[0] == es[0]);
        assert(params_of(us.push(u), es.push(e)) =~= params_of(us, es) + tail);
    }
}

/// The view of a parameter list.
pub open spec fn params_view(s: Seq<(String, String)>) -> Seq<(Seq<char>, Seq<char>)> {
    Seq::new(s.len(), |i: int| (s[i].0@, s[i].1@))
}

/// The character sequences behind a list of endpoint paths.
pub open spec fn eps_view(s: Seq<&String>) -> Seq<Seq<char>> {
    Seq::new(s.len(), |i: int| s[i]@)
}

fn match_one(url_segs: &Vec<Vec<char>>, ep: &String) -> (r: Option<Vec<(String, String)>>)
    ensures
        match r {
            Some(ps) => segs_match(vv(url_segs@), split_seq(ep@, '/')) && params_view(ps@)
                == params_of(vv(url_segs@), split_seq(ep@, '/')),
            None => !segs_match(vv(url_segs@), split_seq(ep@, '/')),
        },
{
    let ghost us = vv(url_segs@);
    let ghost es = split_seq(ep@, '/');
    let ep_segs = split_path(ep.as_str());
    if url_segs.len() != ep_segs.len() {
        return None;
    }
    let mut params: Vec<(String, String)> = Vec::new();
    let n = url_segs.len();
    proof {
        assert(us.subrange(0, 0) =~= Seq::<Seq<char>>::empty());
        assert(es.subrange(0, 0) =~= Seq::<Seq<char>>::empty());
        assert(params_view(params@) =~= params_of(us.subrange(0, 0), es.subrange(0, 0)));
    }
    let mut i: usize = 0;
    while i < n
        invariant
            n == url_segs@.len(),
            n == ep_segs@.len(),
            us == vv(url_segs@),
            es == split_seq(ep@, '/'),
            vv(ep_segs@) == es,
            us.len() == n && es.len() == n,
            i <= n,
            forall|k: int| 0 <= k < i ==> seg_match(us[k], es[k]),
            params_view(params@) == params_of(us.subrange(0, i as int), es.subrange(0, i as int)),
        decreases n - i,
    {
        let e_seg = &ep_segs[i];
        let is_param = e_seg.len() > 0 && e_seg[0] == ':';
        proof {
            assert(es[i as int] == e_seg@);
        }
        if is_param {
            let name = crate::strutil::chars_suffix(e_seg, 1);
            let value = &url_segs[i];
            let pair = (chars_to_string(&name), chars_to_string(value));
            proof {
                lemma_params_of_snoc(
                    us.subrange(0, i as int),
                    es.subrange(0, i as int),
                    us[i as int],
                    es[i as int],
                );
                assert(us.subrange(0, i as int).push(us[i as int]) =~= us.subrange(
                    0,
                    i as int + 1,
                ));
                assert(es.subrange(0, i as int).push(es[i as int]) =~= es.subrange(
                    0,
                    i as int + 1,
                ));
            }
            params.push(pair);
            proof {
                assert(params_view(params@) =~= params_of(
                    us.subrange(0, i as int + 1),
                    es.subrange(0, i as int + 1),
                ));
            }
        } else {
            if !crate::strutil::chars_eq(&url_segs[i], e_seg) {
                proof {
                    assert(us[i as int] == url_segs@[i as int]@);
                    assert(!seg_match(us[i as int], es[i as int]));
                }
                return None;
            }
            proof {
                lemma_params_of_snoc(
                    us.subrange(0, i as int),
                    es.subrange(0, i as int),
                    us[i as int],
                    es[i as int],
                );
                assert(us.subrange(0, i as int).push(us[i as int]) =~= us.subrange(
                    0,
                    i as int + 1,
                ));
                assert(es.subrange(0, i as int).push(es[i as int]) =~= es.subrange(
                    0,
                    i as int + 1,
                ));
                assert(params_view(params@) =~= params_of(
                    us.subrange(0, i as int + 1),
                    es.subrange(0, i as int + 1),
                ));
            }
        }
        i = i + 1;
    }
    proof {
        assert(us.subrange(0, n as int) =~= us);
        assert(es.subrange(0, n as int) =~= es);
    }
    Some(params)
}

/// A matched endpoint: the matching path and the parameter bindings the
/// match produced, in segment order.
#[derive(Debug, PartialEq)]
pub struct EndpointMatch<'a> {
    pub path: &'a String,
    pub params: Vec<(String, String)>,
}

/// Matches `url` against the endpoint paths in order and returns the
/// first match, with its parameter bindings.
pub fn map_url_to_path_with_params<'a>(url: &str, endpoints_paths: Vec<&'a String>) -> (r: Option<
    EndpointMatch<'a>,
>)
    ensures
        match r {
            Some(m) => first_match(url@, eps_view(endpoints_paths@)) matches Some(k) && m.path@
                == eps_view(endpoints_paths@)[k] && params_view(m.params@) == params_of(
                split_seq(url@, '/'),
                split_seq(m.path@, '/'),
            ),
            None => first_match(url@, eps_view(endpoints_paths@)) is None,
        },
{
    let url_segs = split_path(url);
    let ghost eps = eps_view(endpoints_paths@);
    let mut idx: usize = 0;
    while idx < endpoints_paths.len()
        invariant
            vv(url_segs@) == split_seq(url@, '/'),
            eps == eps_view(endpoints_paths@),
            eps.len() == endpoints_paths@.len(),
            idx <= endpoints_paths@.len(),
            forall|j: int| 0 <= j < idx ==> !path_matches(url@, eps[j]),
        decreases endpoints_paths@.len() - idx,
    {
        let ep: &String = endpoints_paths[idx];
        proof {
            assert(eps[idx as int] == ep@);
        }
        match match_one(&url_segs, ep) {
            Some(params) => {
                proof {
                    lemma_first_match_value(url@, eps, idx as int);
                }
                return Some(EndpointMatch { path: ep, params });
            },
            None => {},
        }
        idx = idx + 1;
    }
    proof {
        lemma_first_match_none(url@, eps);
    }
    None
}

/// A segment with its parameter name replaced by the placeholder.
pub open spec fn strip_seg(seg: Seq<char>) -> Seq<char> {
    if is_param_seg(seg) {
        "param"@
    } else {
        seg
    }
}

/// Segments joined by `/`.
pub open spec fn join_slash(segs: Seq<Seq<char>>) -> Seq<char>
    decreases segs.len(),
{
    if segs.len() == 0 {
        Seq::empty()
    } else if segs.len() == 1 {
        segs[0]
    } else {
        segs[0] + seq!['/'] + join_slash(segs.subrange(1, segs.len() as int))
    }
}

/// Appending one segment extends a join by a separator and the segment.
pub proof fn lemma_join_slash_snoc(segs: Seq<Seq<char>>, x: Seq<char>)
    ensures
        segs.len() == 0 ==> join_slash(segs.push(x)) == x,
        segs.len() > 0 ==> join_slash(segs.push(x)) == join_slash(segs) + seq!['/'] + x,
    decreases segs.len(),
{
    if segs.len() == 0 {
        assert(segs.push(x)[0] == x);
    } else {
        assert(segs.push(x).subrange(1, segs.len() as int + 1) =~= segs.subrange(
            1,
            segs.len() as int,
        ).push(x));
        lemma_join_slash_snoc(segs.subrange(1, segs.len() as int), x);
        if segs.len() == 1 {
            assert(join_slash(segs.push(x)) =~= join_slash(segs) + seq!['/'] + x);
        } else {
            assert(join_slash(segs.push(x)) =~= join_slash(segs) + seq!['/'] + x);
        }
    }
}

/// The normalized form of a path: every `:name` segment replaced by the
/// placeholder, so that two endpoints differing only in parameter names
/// collide.
pub open spec fn strip_params_spec(path: Seq<char>) -> Seq<char> {
    join_slash(Seq::new(split_seq(path, '/').len(), |i: int| strip_seg(split_seq(path, '/')[i])))
}

/// Replaces every `:name` segment of `path` by the placeholder.
pub fn strip_params(path: &str) -> (r: String)
    ensures
        r@ == strip_params_spec(path@),
{
    let segs = split_path(path);
    let ghost stripped = Seq::new(
        split_seq(path@, '/').len(),
        |i: int| strip_seg(split_seq(path@, '/')[i]),
    );
    let mut out: Vec<char> = Vec::new();
    let mut i: usize = 0;
    proof {
        assert(stripped.subrange(0, 0) =~= Seq::<Seq<char>>::empty());
    }
    while i < segs.len()
        invariant
            vv(segs@) == split_seq(path@, '/'),
            stripped == Seq::new(
                split_seq(path@, '/').len(),
                |i: int| strip_seg(split_seq(path@, '/')[i]),
            ),
            stripped.len() == segs@.len(),
            i <= segs@.len(),
            out@ == join_slash(stripped.subrange(0, i as int)),
        decreases segs@.len() - i,
    {
        if i > 0 {
            out.push('/');
        }
        let seg = &segs[i];
        let is_param = seg.len() > 0 && seg[0] == ':';
        if is_param {
            crate::strutil::push_str_chars(&mut out, "param");
        } else {
            crate::strutil::push_chars(&mut out, seg);
        }
        proof {
            assert(stripped[i as int] == strip_seg(vv(segs@)[i as int]));
            lemma_join_slash_snoc(stripped.subrange(0, i as int), stripped[i as int]);
            assert(stripped.subrange(0, i as int).push(stripped[i as int]) =~= stripped.subrange(
                0,
                i as int + 1,
            ));
            assert(out@ =~= join_slash(stripped.subrange(0, i as int + 1)));
        }
        i = i + 1;
    }
    proof {
        assert(stripped.subrange(0, stripped.len() as int) =~= stripped);
    }
    chars_to_string(&out)
}

/// Whether a handler script is accepted by the script engine's parser.
pub uninterp spec fn script_accepted(s: Seq<char>) -> bool;

/// Relies on boa_engine::Context::parse: whether `s` parses as a script.
/// The result depends on the text alone.
#[verifier::external_body]
fn script_text_accepted(s: &str) -> (r: bool)
    ensures
        r == script_accepted(s@),
{
    boa_engine::Context::default().parse(s).is_ok()
}

/// The model of an endpoint.
#[verifier::ext_equal]
pub struct EndpointV {
    pub path: Seq<char>,
    pub method: HttpMethod,
    pub handler: Seq<char>,
}

/// One endpoint a server exposes: a path pattern that may contain
/// `:name` segments, a method, and the handler script run on a match.
#[derive(Debug)]
pub struct Endpoint {
    pub path: String,
    pub method: HttpMethod,
    pub handler: String,
}

impl View for Endpoint {
    type V = EndpointV;

    open spec fn view(&self) -> EndpointV {
        EndpointV { path: self.path@, method: self.method, handler: self.handler@ }
    }
}

/// An endpoint path starts with `/` and, unless it is the root alone,
/// does not end with one.
pub open spec fn path_shape_valid(path: Seq<char>) -> bool {
    path.len() > 0 && path[0] == '/' && (path.len() == 1 || path[path.len() - 1] != '/')
}

impl Endpoint {
    /// Whether the path has the required shape.
    pub fn is_path_valid(&self) -> (r: bool)
        ensures
            r == path_shape_valid(self@.path),
    {
        let n = self.path.as_str().unicode_len();
        if n == 0 {
            return false;
        }
        if self.path.as_str().get_char(0) != '/' {
            return false;
        }
        n == 1 || self.path.as_str().get_char(n - 1) != '/'
    }

    /// Whether the handler is a non-empty script that the engine accepts.
    pub fn is_handler_valid(&self) -> (r: bool)
        ensures
            r == (self@.handler.len() > 0 && script_accepted(self@.handler)),
    {
        if self.handler.as_str().is_empty() {
            return false;
        }
        script_text_accepted(self.handler.as_str())
    }

    /// Both validity checks together.
    pub fn is_valid(&self) -> (r: bool)
        ensures
            r == (path_shape_valid(self@.path) && self@.handler.len() > 0 && script_accepted(
                self@.handler,
            )),
    {
        self.is_path_valid() && self.is_handler_valid()
    }

    /// A copy of this endpoint.
    pub fn duplicate(&self) -> (r: Endpoint)
        ensures
            r@ == self@,
    {
        Endpoint { path: self.path.clone(), method: self.method, handler: self.handler.clone() }
    }
}

impl Default for Endpoint {
    /// The example endpoint: a `Post` on the root path with a handler
    /// that answers 200 right away.
    fn default() -> (r: Endpoint)
        ensures
            r@.path == "/"@,
            r@.method == HttpMethod::Post,
    {
        Endpoint {
            path: String::from_str("/"),
            method: HttpMethod::Post,
            handler: String::from_str(
                "const requestHandler = function* () {\n  return response(200, \"Ok\");\n}",
            ),
        }
    }
}

/// The server state machine's states.
#[derive(Clone, Copy, Debug, PartialEq, Eq, Structural)]
pub enum ServerState {
    SimulationNotStarted,
    Active,
}

/// The model of a suspended execution.
#[verifier::ext_equal]
pub struct ServerExecutionV {
    pub request_handler: Seq<char>,
    pub request: crate::message::RequestV,
    pub yield_values: Seq<JVal>,
    pub original_sender: u64,
    pub original_trace_id: u64,
}

/// A handler run in progress.  Its whole state is the handler text, the
/// originating request and the ordered list of the yield results received
/// so far: every drive replays the handler from the top against exactly
/// these values.
#[derive(Debug)]
pub struct ServerExecution {
    request_handler: String,
    request: Request,
    yield_values: Vec<JsonValue>,
    original_sender: u64,
    original_trace_id: u64,
}

impl View for ServerExecution {
    type V = ServerExecutionV;

    closed spec fn view(&self) -> ServerExecutionV {
        ServerExecutionV {
            request_handler: self.request_handler@,
            request: self.request@,
            yield_values: crate::json::jval_arr(self.yield_values@),
            original_sender: self.original_sender,
            original_trace_id: self.original_trace_id,
        }
    }
}

impl ServerExecution {
    /// A fresh execution: no yield results yet.
    pub fn new(
        request_handler: String,
        request: Request,
        original_sender: u64,
        original_trace_id: u64,
    ) -> (r: ServerExecution)
        ensures
            r@.request_handler == request_handler@,
            r@.request == request@,
            r@.yield_values == Seq::<JVal>::empty(),
            r@.original_sender == original_sender,
            r@.original_trace_id == original_trace_id,
    {
        let r = ServerExecution {
            request_handler,
            request,
            yield_values: Vec::new(),
            original_sender,
            original_trace_id,
        };
        proof {
            assert(r@.yield_values =~= Seq::<JVal>::empty());
        }
        r
    }

    /// The sender the final response must go to.
    pub fn original_sender(&self) -> (r: u64)
        ensures
            r == self@.original_sender,
    {
        self.original_sender
    }

    /// The trace id the final response must carry.
    pub fn original_trace_id(&self) -> (r: u64)
        ensures
            r == self@.original_trace_id,
    {
        self.original_trace_id
    }

    /// Records one more yield result; the next drive replays it after
    /// all earlier ones.
    pub fn push_yield_value(&mut self, value: JsonValue)
        ensures
            final(self)@ == (ServerExecutionV {
                yield_values: old(self)@.yield_values.push(value@),
                ..old(self)@
            }),
    {
        proof {
            crate::json::lemma_jval_arr_push(self.yield_values@, value);
        }
        self.yield_values.push(value);
        proof {
            assert(final(self)@ =~~= (ServerExecutionV {
                yield_values: old(self)@.yield_values.push(jval(value)),
                ..old(self)@
            }));
        }
    }
}

/// The model of a drive's outcome.
#[verifier::ext_equal]
pub enum YieldValueV {
    Response(crate::message::ResponseV),
    Request(crate::message::RequestV),
    DatabaseCall(crate::message::DatabaseCallV),
    DatabaseAnswer(JVal),
}

/// What a handler hands back at a suspension point or on return.
#[derive(Debug)]
pub enum YieldValue {
    Response(Response),
    Request(Request),
    DatabaseCall(crate::message::DatabaseCall),
    DatabaseAnswer(JsonValue),
}

impl View for YieldValue {
    type V = YieldValueV;

    open spec fn view(&self) -> YieldValueV {
        match self {
            YieldValue::Response(r) => YieldValueV::Response(r@),
            YieldValue::Request(r) => YieldValueV::Request(r@),
            YieldValue::DatabaseCall(c) => YieldValueV::DatabaseCall(c@),
            YieldValue::DatabaseAnswer(v) => YieldValueV::DatabaseAnswer(jval(*v)),
        }
    }
}

/// The model of a generator step.
#[verifier::ext_equal]
pub struct GeneratorResultValueV {
    pub done: bool,
    pub value: YieldValueV,
}

/// One generator step: whether the handler returned, and the value it
/// yielded or returned.
#[derive(Debug)]
pub struct GeneratorResultValue {
    pub done: bool,
    pub value: YieldValue,
}

impl View for GeneratorResultValue {
    type V = GeneratorResultValueV;

    open spec fn view(&self) -> GeneratorResultValueV {
        GeneratorResultValueV { done: self.done, value: self.value@ }
    }
}

/// The model of an execution error.
#[verifier::ext_equal]
pub enum ExecutionErrorV {
    NotFound,
    BadRequest,
    InternalServerError(JVal),
    ServiceUnavailable,
}

/// Why a message could not be handled or a drive failed.
#[derive(Debug)]
pub enum ExecutionError {
    NotFound,
    BadRequest,
    InternalServerError(JsonValue),
    ServiceUnavailable,
}

impl View for ExecutionError {
    type V = ExecutionErrorV;

    open spec fn view(&self) -> ExecutionErrorV {
        match self {
            ExecutionError::NotFound => ExecutionErrorV::NotFound,
            ExecutionError::BadRequest => ExecutionErrorV::BadRequest,
            ExecutionError::InternalServerError(v) => ExecutionErrorV::InternalServerError(
                jval(*v),
            ),
            ExecutionError::ServiceUnavailable => ExecutionErrorV::ServiceUnavailable,
        }
    }
}

/// The response an execution error turns into.
pub open spec fn error_response(e: ExecutionErrorV) -> crate::message::ResponseV {
    match e {
        ExecutionErrorV::NotFound => crate::message::ResponseV {
            status: 404,
            data: JVal::Str("Not found."@),
        },
        ExecutionErrorV::BadRequest => crate::message::ResponseV {
            status: 400,
            data: JVal::Str("Bad request."@),
        },
        ExecutionErrorV::InternalServerError(v) => crate::message::ResponseV {
            status: 500,
            data: v,
        },
        ExecutionErrorV::ServiceUnavailable => crate::message::ResponseV {
            status: 503,
            data: JVal::Str("Service Unavailable."@),
        },
    }
}

impl ExecutionError {
    /// Turns the error into the response sent back.
    pub fn to_response(self) -> (r: Response)
        ensures
            r@ == error_response(self@),
    {
        match self {
            ExecutionError::NotFound => Response::not_found(),
            ExecutionError::BadRequest => Response::bad_request(),
            ExecutionError::InternalServerError(v) => Response::internal_server_error(v),
            ExecutionError::ServiceUnavailable => Response::service_unavailable(),
        }
    }
}

/// The parameter bindings as JSON object members, each value a string.
pub open spec fn str_pairs(params: Seq<(Seq<char>, Seq<char>)>) -> Seq<(Seq<char>, JVal)> {
    Seq::new(params.len(), |i: int| (params[i].0, JVal::Str(params[i].1)))
}

/// The request as the script engine receives it: a JSON object literal
/// with the body text embedded verbatim.
pub open spec fn request_json(r: crate::message::RequestV) -> Seq<char> {
    "{\"url\":"@ + crate::json::ser(JVal::Str(r.url)) + ",\"path\":"@ + crate::json::ser(
        JVal::Str(r.path),
    ) + ",\"method\":"@ + crate::json::ser(JVal::Str(r.method.spec_name())) + ",\"body\":"@
        + r.body + ",\"params\":"@ + crate::json::ser(JVal::Obj(str_pairs(r.params))) + "}"@
}

/// Renders `request_json` for a request.
#[verifier::loop_isolation(false)]
fn build_request_json(r: &Request) -> (text: String)
    ensures
        text@ == request_json(r@),
{
    let mut out: Vec<char> = Vec::new();
    crate::strutil::push_str_chars(&mut out, "{\"url\":");
    let url_txt = crate::json::to_chars(&JsonValue::Str(r.url.clone()));
    crate::strutil::push_chars(&mut out, &url_txt);
    crate::strutil::push_str_chars(&mut out, ",\"path\":");
    let path_txt = crate::json::to_chars(&JsonValue::Str(r.path.clone()));
    crate::strutil::push_chars(&mut out, &path_txt);
    crate::strutil::push_str_chars(&mut out, ",\"method\":");
    let method_txt = crate::json::to_chars(&JsonValue::Str(String::from_str(r.method.as_str())));
    crate::strutil::push_chars(&mut out, &method_txt);
    crate::strutil::push_str_chars(&mut out, ",\"body\":");
    crate::strutil::push_str_chars(&mut out, r.body.as_str());
    crate::strutil::push_str_chars(&mut out, ",\"params\":");
    let mut members: Vec<(String, JsonValue)> = Vec::new();
    proof {
        assert(crate::json::jval_obj(members@) =~= str_pairs(r@.params).subrange(0, 0));
    }
    let mut i: usize = 0;
    while i < r.params.len()
        invariant
            i <= r.params@.len(),
            crate::json::jval_obj(members@) == str_pairs(r@.params).subrange(0, i as int),
        decreases r.params@.len() - i,
    {
        let k = r.params[i].0.clone();
        let v = JsonValue::Str(r.params[i].1.clone());
        proof {
            crate::json::lemma_jval_obj_push(members@, (k, v));
            assert(crate::json::jval_obj(members@).push((k@, jval(v))) =~= str_pairs(
                r@.params,
            ).subrange(0, i as int + 1));
        }
        members.push((k, v));
        i = i + 1;
    }
    proof {
        assert(str_pairs(r@.params).subrange(0, r.params@.len() as int) =~= str_pairs(r@.params));
    }
    let params_txt = crate::json::to_chars(&JsonValue::Obj(members));
    crate::strutil::push_chars(&mut out, &params_txt);
    crate::strutil::push_str_chars(&mut out, "}");
    proof {
        assert(out@ =~= request_json(r@));
    }
    chars_to_string(&out)
}

/// The script engine's evaluation context.
#[verifier::external_type_specification]
#[verifier::external_body]
pub struct ExContext(boa_engine::Context);

/// A value computed by the script engine.
#[verifier::external_type_specification]
#[verifier::external_body]
pub struct ExJsValue(boa_engine::JsValue);

/// Relies on boa_engine::Context::default: a fresh evaluation context.
#[verifier::external_body]
fn context_new() -> boa_engine::Context {
    boa_engine::Context::default()
}

/// Relies on boa_engine::Context::eval: evaluates a script in the
/// context and returns its value, or an error's display text.  Nothing
/// is promised of the result or of the context's new state: a script may
/// draw on the engine's own sources, such as its clock or its random
/// numbers.  A script that does not terminate keeps `eval` from
/// returning; termination is the handler author's obligation.
#[verifier::external_body]
fn context_eval(ctx: &mut boa_engine::Context, source: &str) -> Result<boa_engine::JsValue, String> {
    ctx.eval(source).map_err(|e| e.display().to_string())
}

/// Relies on boa_engine::JsValue::as_string: the value's text when the
/// value is a string, and nothing otherwise.
#[verifier::external_body]
fn js_value_string(v: &boa_engine::JsValue) -> Option<String> {
    v.as_string().map(|s| s.as_str().to_string())
}

/// One drive of the generator protocol: a fresh context, the fixed
/// helper prelude that defines `http`, `db` and `response` in terms of
/// the yield-value JSON shapes, the handler script, the generator over
/// the request literal, the ordered replay of every prior yield result,
/// and `JSON.stringify` of the last generator step.  Each evaluation is
/// the engine's; the texts and their order are this function's.
fn drive_script(handler: &str, request_json: &String, prior: &Vec<String>) -> (r: Result<
    String,
    String,
>) {
    let mut ctx = context_new();
    let prelude =
        "const http = { get: function(url, path) { return { Request: { url, path, method: \"Get\", body: null, params: {} }}; } }; const db = { save: function(name, value) { return { DatabaseCall: { name, call_type: { Save: value } } } }, findOne: function(name, id) { return { DatabaseCall: { name, call_type: { FindOne: id } } } }, findAll: function(name) { return { DatabaseCall: { name, call_type: \"FindAll\" } } }, contains: function(name, id) { return { DatabaseCall: { name, call_type: { Contains: id } } } }, delete: function(name, id) { return { DatabaseCall: { name, call_type: { Delete: id } } } } }; function response(status, data) { return { Response: { status, data } }; }";
    match context_eval(&mut ctx, prelude) {
        Ok(_) => {},
        Err(e) => {
            return Err(e);
        },
    }
    match context_eval(&mut ctx, handler) {
        Ok(_) => {},
        Err(e) => {
            return Err(e);
        },
    }
    let mut setup: Vec<char> = Vec::new();
    crate::strutil::push_str_chars(&mut setup, "const request = (");
    crate::strutil::push_str_chars(&mut setup, request_json.as_str());
    crate::strutil::push_str_chars(&mut setup, "); const gen = requestHandler(request);");
    let setup_text = chars_to_string(&setup);
    match context_eval(&mut ctx, setup_text.as_str()) {
        Ok(_) => {},
        Err(e) => {
            return Err(e);
        },
    }
    let mut step = match context_eval(&mut ctx, "JSON.stringify(gen.next())") {
        Ok(v) => v,
        Err(e) => {
            return Err(e);
        },
    };
    let mut i: usize = 0;
    while i < prior.len()
        decreases prior@.len() - i,
    {
        let mut feed: Vec<char> = Vec::new();
        crate::strutil::push_str_chars(&mut feed, "JSON.stringify(gen.next((");
        crate::strutil::push_str_chars(&mut feed, prior[i].as_str());
        crate::strutil::push_str_chars(&mut feed, ")))");
        let feed_text = chars_to_string(&feed);
        step = match context_eval(&mut ctx, feed_text.as_str()) {
            Ok(v) => v,
            Err(e) => {
                return Err(e);
            },
        };
        i = i + 1;
    }
    match js_value_string(&step) {
        Some(s) => Ok(s),
        None => Err(String::from_str("the generator step did not stringify")),
    }
}

/// The method named by a string, as requests carry it.
pub open spec fn decode_method(s: Seq<char>) -> Option<HttpMethod> {
    if s == "Get"@ {
        Some(HttpMethod::Get)
    } else if s == "Post"@ {
        Some(HttpMethod::Post)
    } else if s == "Put"@ {
        Some(HttpMethod::Put)
    } else if s == "Delete"@ {
        Some(HttpMethod::Delete)
    } else {
        None
    }
}

/// Parameter bindings from a JSON object whose values must all be strings.
pub open spec fn decode_params(ps: Seq<(Seq<char>, JVal)>) -> Option<
    Seq<(Seq<char>, Seq<char>)>,
> {
    if forall|i: int| 0 <= i < ps.len() ==> (#[trigger] ps[i].1) is Str {
        Some(Seq::new(ps.len(), |i: int| (ps[i].0, ps[i].1->Str_0)))
    } else {
        None
    }
}

/// A request from its JSON form; the body is kept as its rendered text.
pub open spec fn decode_request(v: JVal) -> Option<crate::message::RequestV> {
    match v {
        JVal::Obj(m) => match (
            crate::json::obj_lookup(m, "url"@),
            crate::json::obj_lookup(m, "path"@),
            crate::json::obj_lookup(m, "method"@),
            crate::json::obj_lookup(m, "body"@),
            crate::json::obj_lookup(m, "params"@),
        ) {
            (
                Some(JVal::Str(url)),
                Some(JVal::Str(path)),
                Some(JVal::Str(ms)),
                Some(bodyv),
                Some(JVal::Obj(ps)),
            ) => match (decode_method(ms), decode_params(ps)) {
                (Some(method), Some(params)) => Some(
                    crate::message::RequestV {
                        url,
                        path,
                        method,
                        body: crate::json::ser(bodyv),
                        params,
                    },
                ),
                _ => None,
            },
            _ => None,
        },
        _ => None,
    }
}

/// A response from its JSON form: an integral status in range, and a
/// `data` member.
pub open spec fn decode_response(v: JVal) -> Option<crate::message::ResponseV> {
    match v {
        JVal::Obj(m) => match (
            crate::json::obj_lookup(m, "status"@),
            crate::json::obj_lookup(m, "data"@),
        ) {
            (Some(JVal::Int(n)), Some(d)) => if 0 <= n <= 65535 {
                Some(crate::message::ResponseV { status: n as u16, data: d })
            } else {
                None
            },
            _ => None,
        },
        _ => None,
    }
}

/// A database call type from its JSON form: the tag `FindAll` as a plain
/// string, every other variant as a one-member object; identifiers must
/// be 64-bit integers.
pub open spec fn decode_call_type(v: JVal) -> Option<crate::message::DatabaseCallTypeV> {
    match v {
        JVal::Str(s) => if s == "FindAll"@ {
            Some(crate::message::DatabaseCallTypeV::FindAll)
        } else {
            None
        },
        JVal::Obj(m) => if m.len() == 1 {
            let key = m[0].0;
            let inner = m[0].1;
            if key == "Save"@ {
                Some(crate::message::DatabaseCallTypeV::Save(inner))
            } else if key == "FindOne"@ || key == "Contains"@ || key == "Delete"@ {
                match inner {
                    JVal::Int(n) => if -0x8000000000000000 <= n < 0x8000000000000000 {
                        if key == "FindOne"@ {
                            Some(crate::message::DatabaseCallTypeV::FindOne(n as i64))
                        } else if key == "Contains"@ {
                            Some(crate::message::DatabaseCallTypeV::Contains(n as i64))
                        } else {
                            Some(crate::message::DatabaseCallTypeV::Delete(n as i64))
                        }
                    } else {
                        None
                    },
                    _ => None,
                }
            } else {
                None
            }
        } else {
            None
        },
        _ => None,
    }
}

/// A database call from its JSON form.
pub open spec fn decode_db_call(v: JVal) -> Option<crate::message::DatabaseCallV> {
    match v {
        JVal::Obj(m) => match (
            crate::json::obj_lookup(m, "name"@),
            crate::json::obj_lookup(m, "call_type"@),
        ) {
            (Some(JVal::Str(name)), Some(ct)) => match decode_call_type(ct) {
                Some(call_type) => Some(crate::message::DatabaseCallV { name, call_type }),
                None => None,
            },
            _ => None,
        },
        _ => None,
    }
}

/// A yield value from its JSON form: a one-member object whose key names
/// the kind.
pub open spec fn decode_yield(v: JVal) -> Option<YieldValueV> {
    match v {
        JVal::Obj(m) => if m.len() == 1 {
            let key = m[0].0;
            let inner = m[0].1;
            if key == "Response"@ {
                match decode_response(inner) {
                    Some(r) => Some(YieldValueV::Response(r)),
                    None => None,
                }
            } else if key == "Request"@ {
                match decode_request(inner) {
                    Some(r) => Some(YieldValueV::Request(r)),
                    None => None,
                }
            } else if key == "DatabaseCall"@ {
                match decode_db_call(inner) {
                    Some(c) => Some(YieldValueV::DatabaseCall(c)),
                    None => None,
                }
            } else if key == "DatabaseAnswer"@ {
                Some(YieldValueV::DatabaseAnswer(inner))
            } else {
                None
            }
        } else {
            None
        },
        _ => None,
    }
}

/// A generator step from its JSON form: `done` must be a boolean and
/// `value` a decodable yield value.
pub open spec fn decode_generator(v: JVal) -> Option<GeneratorResultValueV> {
    match v {
        JVal::Obj(m) => match (
            crate::json::obj_lookup(m, "done"@),
            crate::json::obj_lookup(m, "value"@),
        ) {
            (Some(JVal::Bool(done)), Some(val)) => match decode_yield(val) {
                Some(y) => Some(GeneratorResultValueV { done, value: y }),
                None => None,
            },
            _ => None,
        },
        _ => None,
    }
}

/// The error every malformed generator step turns into.
pub open spec fn malformed_step_error() -> ExecutionErrorV {
    ExecutionErrorV::InternalServerError(JVal::Str("Incorrect yield value or response."@))
}

/// Whether `s` holds exactly the text of `lit`.
fn string_is(s: &String, lit: &str) -> (r: bool)
    ensures
        r == (s@ == lit@),
{
    let a = str_to_chars(s.as_str());
    let b = str_to_chars(lit);
    crate::strutil::chars_eq(&a, &b)
}

fn decode_response_value(v: &JsonValue) -> (r: Option<Response>)
    ensures
        match decode_response(jval(*v)) {
            Some(resp) => r matches Some(x) && x@ == resp,
            None => r is None,
        },
{
    let members = match v {
        JsonValue::Obj(m) => m,
        _ => {
            return None;
        },
    };
    let status: u16 = match crate::json::obj_get(members, &String::from_str("status")) {
        Some(sv) => match sv {
            JsonValue::Int(n) => {
                if 0 <= *n && *n <= 65535 {
                    *n as u16
                } else {
                    return None;
                }
            },
            _ => {
                return None;
            },
        },
        None => {
            return None;
        },
    };
    match crate::json::obj_get(members, &String::from_str("data")) {
        Some(d) => Some(Response { status, data: crate::json::deep_copy(d) }),
        None => None,
    }
}

#[verifier::loop_isolation(false)]
fn decode_request_value(v: &JsonValue) -> (r: Option<Request>)
    ensures
        match decode_request(jval(*v)) {
            Some(req) => r matches Some(x) && x@ == req,
            None => r is None,
        },
{
    let members = match v {
        JsonValue::Obj(m) => m,
        _ => {
            return None;
        },
    };
    let url: String = match crate::json::obj_get(members, &String::from_str("url")) {
        Some(JsonValue::Str(s)) => s.clone(),
        _ => {
            return None;
        },
    };
    let path: String = match crate::json::obj_get(members, &String::from_str("path")) {
        Some(JsonValue::Str(s)) => s.clone(),
        _ => {
            return None;
        },
    };
    let method: HttpMethod = match crate::json::obj_get(members, &String::from_str("method")) {
        Some(JsonValue::Str(s)) => {
            if string_is(s, "Get") {
                HttpMethod::Get
            } else if string_is(s, "Post") {
                HttpMethod::Post
            } else if string_is(s, "Put") {
                HttpMethod::Put
            } else if string_is(s, "Delete") {
                HttpMethod::Delete
            } else {
                return None;
            }
        },
        _ => {
            return None;
        },
    };
    let body: String = match crate::json::obj_get(members, &String::from_str("body")) {
        Some(b) => {
            let txt = crate::json::to_chars(b);
            chars_to_string(&txt)
        },
        None => {
            return None;
        },
    };
    let ps = match crate::json::obj_get(members, &String::from_str("params")) {
        Some(JsonValue::Obj(ps)) => ps,
        _ => {
            return None;
        },
    };
    proof {
        crate::json::lemma_jval_obj(ps@);
    }
    let ghost psv = crate::json::jval_obj(ps@);
    let mut params: Vec<(String, String)> = Vec::new();
    let mut i: usize = 0;
    while i < ps.len()
        invariant
            i <= ps@.len(),
            psv == crate::json::jval_obj(ps@),
            psv.len() == ps@.len(),
            params@.len() == i,
            forall|j: int| 0 <= j < i ==> (#[trigger] psv[j].1) is Str,
            forall|j: int|
                0 <= j < i ==> (#[trigger] params@[j].0@, params@[j].1@) == (
                    psv[j].0,
                    psv[j].1->Str_0,
                ),
        decreases ps@.len() - i,
    {
        match &ps[i].1 {
            JsonValue::Str(s) => {
                params.push((ps[i].0.clone(), s.clone()));
            },
            _ => {
                proof {
                    assert(!(psv[i as int].1 is Str));
                }
                return None;
            },
        }
        i = i + 1;
    }
    let req = Request { url, path, method, body, params };
    proof {
        assert(decode_params(psv) matches Some(ds) && req@.params =~= ds);
        assert(req@ =~~= decode_request(jval(*v))->Some_0);
    }
    Some(req)
}

fn decode_call_type_value(v: &JsonValue) -> (r: Option<crate::message::DatabaseCallType>)
    ensures
        match decode_call_type(jval(*v)) {
            Some(ct) => r matches Some(x) && x@ == ct,
            None => r is None,
        },
{
    match v {
        JsonValue::Str(s) => {
            if string_is(s, "FindAll") {
                Some(crate::message::DatabaseCallType::FindAll)
            } else {
                None
            }
        },
        JsonValue::Obj(m) => {
            proof {
                crate::json::lemma_jval_obj(m@);
            }
            if m.len() != 1 {
                return None;
            }
            let key = &m[0].0;
            let inner = &m[0].1;
            proof {
                assert(crate::json::jval_obj(m@)[0] == (key@, jval(*inner)));
            }
            if string_is(key, "Save") {
                Some(crate::message::DatabaseCallType::Save(crate::json::deep_copy(inner)))
            } else if string_is(key, "FindOne") {
                match inner {
                    JsonValue::Int(n) => Some(crate::message::DatabaseCallType::FindOne(*n)),
                    _ => None,
                }
            } else if string_is(key, "Contains") {
                match inner {
                    JsonValue::Int(n) => Some(crate::message::DatabaseCallType::Contains(*n)),
                    _ => None,
                }
            } else if string_is(key, "Delete") {
                match inner {
                    JsonValue::Int(n) => Some(crate::message::DatabaseCallType::Delete(*n)),
                    _ => None,
                }
            } else {
                None
            }
        },
        _ => None,
    }
}

fn decode_db_call_value(v: &JsonValue) -> (r: Option<crate::message::DatabaseCall>)
    ensures
        match decode_db_call(jval(*v)) {
            Some(c) => r matches Some(x) && x@ == c,
            None => r is None,
        },
{
    let members = match v {
        JsonValue::Obj(m) => m,
        _ => {
            return None;
        },
    };
    let name: String = match crate::json::obj_get(members, &String::from_str("name")) {
        Some(JsonValue::Str(s)) => s.clone(),
        _ => {
            return None;
        },
    };
    match crate::json::obj_get(members, &String::from_str("call_type")) {
        Some(ct) => match decode_call_type_value(ct) {
            Some(call_type) => Some(crate::message::DatabaseCall { name, call_type }),
            None => None,
        },
        None => None,
    }
}

fn decode_yield_value(v: &JsonValue) -> (r: Option<YieldValue>)
    ensures
        match decode_yield(jval(*v)) {
            Some(y) => r matches Some(x) && x@ == y,
            None => r is None,
        },
{
    let members = match v {
        JsonValue::Obj(m) => m,
        _ => {
            return None;
        },
    };
    proof {
        crate::json::lemma_jval_obj(members@);
    }
    if members.len() != 1 {
        return None;
    }
    let key = &members[0].0;
    let inner = &members[0].1;
    proof {
        assert(crate::json::jval_obj(members@)[0] == (key@, jval(*inner)));
    }
    if string_is(key, "Response") {
        match decode_response_value(inner) {
            Some(resp) => Some(YieldValue::Response(resp)),
            None => None,
        }
    } else if string_is(key, "Request") {
        match decode_request_value(inner) {
            Some(req) => Some(YieldValue::Request(req)),
            None => None,
        }
    } else if string_is(key, "DatabaseCall") {
        match decode_db_call_value(inner) {
            Some(c) => Some(YieldValue::DatabaseCall(c)),
            None => None,
        }
    } else if string_is(key, "DatabaseAnswer") {
        Some(YieldValue::DatabaseAnswer(crate::json::deep_copy(inner)))
    } else {
        None
    }
}

/// Decodes one generator step handed back by the script engine.  A step
/// that does not decode is the malformed-step error, which becomes a 500
/// response.
pub fn decode_generator_value(v: &JsonValue) -> (r: Result<GeneratorResultValue, ExecutionError>)
    ensures
        match decode_generator(jval(*v)) {
            Some(g) => r matches Ok(gr) && gr@ == g,
            None => r matches Err(e) && e@ == malformed_step_error(),
        },
{
    let members = match v {
        JsonValue::Obj(m) => m,
        _ => {
            return Err(malformed_step());
        },
    };
    let done: bool = match crate::json::obj_get(members, &String::from_str("done")) {
        Some(dv) => match dv {
            JsonValue::Bool(b) => *b,
            _ => {
                return Err(malformed_step());
            },
        },
        None => {
            return Err(malformed_step());
        },
    };
    match crate::json::obj_get(members, &String::from_str("value")) {
        Some(val) => match decode_yield_value(val) {
            Some(y) => Ok(GeneratorResultValue { done, value: y }),
            None => Err(malformed_step()),
        },
        None => Err(malformed_step()),
    }
}

fn malformed_step() -> (r: ExecutionError)
    ensures
        r@ == malformed_step_error(),
{
    ExecutionError::InternalServerError(
        JsonValue::Str(String::from_str("Incorrect yield value or response.")),
    )
}

impl ServerExecution {
    /// The replay feed: every recorded yield result rendered as JSON
    /// text, in order.  Together with the handler text and the request
    /// text, this is the engine's whole input: a drive is a function of
    /// the execution's state and of the engine alone.
    #[verifier::loop_isolation(false)]
    fn replay_texts(&self) -> (r: Vec<String>)
        ensures
            Seq::new(r@.len(), |i: int| r@[i]@) == Seq::new(
                self@.yield_values.len(),
                |i: int| crate::json::ser(self@.yield_values[i]),
            ),
    {
        proof {
            crate::json::lemma_jval_arr(self.yield_values@);
        }
        let mut r: Vec<String> = Vec::new();
        let n = self.yield_values.len();
        let mut i: usize = 0;
        while i < n
            invariant
                n == self.yield_values@.len(),
                i <= n,
                r@.len() == i,
                forall|k: int|
                    0 <= k < i ==> (#[trigger] r@[k])@ == crate::json::ser(
                        self@.yield_values[k],
                    ),
            decreases n - i,
        {
            let txt = crate::json::to_chars(&self.yield_values[i]);
            r.push(chars_to_string(&txt));
            i = i + 1;
        }
        proof {
            assert(Seq::new(r@.len(), |i: int| r@[i]@) =~= Seq::new(
                self@.yield_values.len(),
                |i: int| crate::json::ser(self@.yield_values[i]),
            ));
        }
        r
    }

    /// One drive: replays the handler from the top against the recorded
    /// yield results and returns the next generator step, or the error
    /// the drive produced.  Every error is an internal server error.
    /// The engine's input is a function of the execution's state alone,
    /// so replay is idempotent whenever the handler script is itself
    /// deterministic, as the handler contract demands.
    pub fn execute(&self) -> (r: Result<GeneratorResultValue, ExecutionError>)
        ensures
            r matches Err(e) ==> e@ is InternalServerError,
    {
        let request_text = build_request_json(&self.request);
        let prior = self.replay_texts();
        match drive_script(self.request_handler.as_str(), &request_text, &prior) {
            Ok(step_text) => {
                let chars = str_to_chars(step_text.as_str());
                match crate::json::from_chars(&chars) {
                    Some(step) => decode_generator_value(&step),
                    None => Err(malformed_step()),
                }
            },
            Err(text) => Err(
                ExecutionError::InternalServerError(
                    JsonValue::Str(text),
                ),
            ),
        }
    }
}

/// The first endpoint whose method equals `m` and whose path pattern
/// matches `path`.
pub open spec fn find_endpoint(eps: Seq<EndpointV>, m: HttpMethod, path: Seq<char>) -> Option<int>
    decreases eps.len(),
{
    if eps.len() == 0 {
        None
    } else if eps[0].method == m && path_matches(path, eps[0].path) {
        Some(0int)
    } else {
        match find_endpoint(eps.subrange(1, eps.len() as int), m, path) {
            Some(i) => Some(i + 1),
            None => None,
        }
    }
}

/// `find_endpoint` from its characterization.
pub proof fn lemma_find_endpoint_value(eps: Seq<EndpointV>, m: HttpMethod, path: Seq<char>, k: int)
    requires
        0 <= k < eps.len(),
        eps[k].method == m && path_matches(path, eps[k].path),
        forall|j: int| 0 <= j < k ==> !(eps[j].method == m && path_matches(path, eps[j].path)),
    ensures
        find_endpoint(eps, m, path) == Some(k),
    decreases eps.len(),
{
    if k > 0 {
        let sub = eps.subrange(1, eps.len() as int);
        assert(sub[k - 1] == eps[k]);
        assert forall|j: int|
            0 <= j < k - 1 implies !(sub[j].method == m && path_matches(path, sub[j].path)) by {
            assert(sub[j] == eps[j + 1]);
        }
        lemma_find_endpoint_value(sub, m, path, k - 1);
    }
}

/// `find_endpoint` is `None` when nothing matches.
pub proof fn lemma_find_endpoint_none(eps: Seq<EndpointV>, m: HttpMethod, path: Seq<char>)
    requires
        forall|j: int|
            0 <= j < eps.len() ==> !(eps[j].method == m && path_matches(path, eps[j].path)),
    ensures
        find_endpoint(eps, m, path) is None,
    decreases eps.len(),
{
    if eps.len() > 0 {
        let sub = eps.subrange(1, eps.len() as int);
        assert forall|j: int|
            0 <= j < sub.len() implies !(sub[j].method == m && path_matches(path, sub[j].path)) by {
            assert(sub[j] == eps[j + 1]);
        }
        lemma_find_endpoint_none(sub, m, path);
    }
}

/// The position of the execution waiting on trace id `t`.
pub open spec fn exec_index(table: Seq<(u64, ServerExecutionV)>, t: u64) -> Option<int>
    decreases table.len(),
{
    if table.len() == 0 {
        None
    } else if table[0].0 == t {
        Some(0int)
    } else {
        match exec_index(table.subrange(1, table.len() as int), t) {
            Some(i) => Some(i + 1),
            None => None,
        }
    }
}

/// What `exec_index` says, member by member.
pub proof fn lemma_exec_index(table: Seq<(u64, ServerExecutionV)>, t: u64)
    ensures
        match exec_index(table, t) {
            Some(i) => 0 <= i < table.len() && table[i].0 == t && forall|j: int|
                0 <= j < i ==> table[j].0 != t,
            None => forall|j: int| 0 <= j < table.len() ==> table[j].0 != t,
        },
    decreases table.len(),
{
    if table.len() > 0 && table[0].0 != t {
        let sub = table.subrange(1, table.len() as int);
        lemma_exec_index(sub, t);
        assert forall|j: int| 1 <= j < table.len() implies sub[j - 1] == table[j] by {}
    }
}

/// `exec_index` from its characterization.
pub proof fn lemma_exec_index_value(table: Seq<(u64, ServerExecutionV)>, t: u64, k: int)
    requires
        0 <= k < table.len(),
        table[k].0 == t,
        forall|j: int| 0 <= j < k ==> table[j].0 != t,
    ensures
        exec_index(table, t) == Some(k),
    decreases table.len(),
{
    if k > 0 {
        let sub = table.subrange(1, table.len() as int);
        assert(sub[k - 1] == table[k]);
        assert forall|j: int| 0 <= j < k - 1 implies sub[j].0 != t by {
            assert(sub[j] == table[j + 1]);
        }
        lemma_exec_index_value(sub, t, k - 1);
    }
}

/// `exec_index` is `None` when no entry carries the trace id.
pub proof fn lemma_exec_index_none(table: Seq<(u64, ServerExecutionV)>, t: u64)
    requires
        forall|j: int| 0 <= j < table.len() ==> table[j].0 != t,
    ensures
        exec_index(table, t) is None,
    decreases table.len(),
{
    if table.len() > 0 {
        let sub = table.subrange(1, table.len() as int);
        assert forall|j: int| 0 <= j < sub.len() implies sub[j].0 != t by {
            assert(sub[j] == table[j + 1]);
        }
        lemma_exec_index_none(sub, t);
    }
}

/// The model of a server.
#[verifier::ext_equal]
pub struct ServerV {
    pub endpoint_handlers: Seq<EndpointV>,
    pub message_queue: Seq<crate::message::MessageComponentV>,
    pub state: ServerState,
    pub active_executions: Seq<(u64, ServerExecutionV)>,
    pub can_be_edited: bool,
    pub max_concurrent_connections: Option<u8>,
}

/// A server node: its endpoints, inbound queue, and the table of
/// executions waiting for a sub-call's reply, keyed by the sub-call's
/// trace id.
#[derive(Debug)]
pub struct Server {
    pub endpoint_handlers: Vec<Endpoint>,
    pub message_queue: Vec<crate::message::MessageComponent>,
    pub state: ServerState,
    active_executions: Vec<(u64, ServerExecution)>,
    can_be_edited: bool,
    max_concurrent_connections: Option<u8>,
}

impl View for Server {
    type V = ServerV;

    closed spec fn view(&self) -> ServerV {
        ServerV {
            endpoint_handlers: Seq::new(
                self.endpoint_handlers@.len(),
                |i: int| self.endpoint_handlers@[i]@,
            ),
            message_queue: Seq::new(
                self.message_queue@.len(),
                |i: int| self.message_queue@[i]@,
            ),
            state: self.state,
            active_executions: Seq::new(
                self.active_executions@.len(),
                |i: int| (self.active_executions@[i].0, self.active_executions@[i].1@),
            ),
            can_be_edited: self.can_be_edited,
            max_concurrent_connections: self.max_concurrent_connections,
        }
    }
}

/// Whether a server's endpoints are pairwise distinct after
/// normalization and each endpoint is valid.
pub open spec fn server_valid(s: ServerV) -> bool {
    &&& (forall|j: int, k: int|
        0 <= j < k < s.endpoint_handlers.len() ==> !((#[trigger] s.endpoint_handlers[j]).method
            == (#[trigger] s.endpoint_handlers[k]).method && strip_params_spec(
            s.endpoint_handlers[j].path,
        ) == strip_params_spec(s.endpoint_handlers[k].path)))
    &&& (forall|j: int|
        0 <= j < s.endpoint_handlers.len() ==> {
            let e = #[trigger] s.endpoint_handlers[j];
            path_shape_valid(e.path) && e.handler.len() > 0 && script_accepted(e.handler)
        })
}

impl Default for Server {
    /// A fresh server: the example endpoint, no cap on concurrent
    /// executions, editable.
    fn default() -> (r: Server)
        ensures
            r@.endpoint_handlers.len() == 1,
            r@.endpoint_handlers[0].path == "/"@,
            r@.endpoint_handlers[0].method == HttpMethod::Post,
            r@.message_queue == Seq::<crate::message::MessageComponentV>::empty(),
            r@.state == ServerState::SimulationNotStarted,
            r@.active_executions == Seq::<(u64, ServerExecutionV)>::empty(),
            r@.can_be_edited == true,
            r@.max_concurrent_connections is None,
    {
        let mut endpoints: Vec<Endpoint> = Vec::new();
        endpoints.push(Endpoint::default());
        let r = Server {
            endpoint_handlers: endpoints,
            message_queue: Vec::new(),
            state: ServerState::SimulationNotStarted,
            active_executions: Vec::new(),
            can_be_edited: true,
            max_concurrent_connections: None,
        };
        proof {
            assert(r@.message_queue =~= Seq::<crate::message::MessageComponentV>::empty());
            assert(r@.active_executions =~= Seq::<(u64, ServerExecutionV)>::empty());
        }
        r
    }
}

impl Server {
    /// The current state.
    pub fn state(&self) -> (r: ServerState)
        ensures
            r == self@.state,
    {
        self.state
    }

    /// Whether admission control lets a new request in: under the cap,
    /// or no cap was set.
    pub fn can_handle_new_request(&self) -> (r: bool)
        ensures
            r == match self@.max_concurrent_connections {
                Some(cap) => self@.active_executions.len() < cap as int,
                None => true,
            },
    {
        match self.max_concurrent_connections {
            Some(cap) => self.active_executions.len() < cap as usize,
            None => true,
        }
    }

    /// Sets the cap on concurrently active executions.
    pub fn with_max_concurrent_connections(self, max_concurrent_connections: Option<u8>) -> (r:
        Server)
        ensures
            r@ == (ServerV { max_concurrent_connections, ..self@ }),
    {
        let mut this = self;
        this.max_concurrent_connections = max_concurrent_connections;
        this
    }

    /// The cap on concurrently active executions, if any.
    pub fn max_concurrent_connections(&self) -> (r: Option<u8>)
        ensures
            r == self@.max_concurrent_connections,
    {
        self.max_concurrent_connections
    }

    /// Whether the server may be edited.
    pub fn can_be_edited(&self) -> (r: bool)
        ensures
            r == self@.can_be_edited,
    {
        self.can_be_edited
    }

    /// Enters the simulation.
    pub fn start_simulation(&mut self)
        ensures
            final(self)@ == (ServerV { state: ServerState::Active, ..old(self)@ }),
    {
        self.state = ServerState::Active;
    }

    /// Queues an inbound message while active; otherwise the message is
    /// dropped.
    pub fn handle_message(&mut self, message: crate::message::MessageComponent)
        ensures
            old(self)@.state == ServerState::Active ==> final(self)@ == (ServerV {
                message_queue: old(self)@.message_queue.push(message@),
                ..old(self)@
            }),
            old(self)@.state != ServerState::Active ==> final(self)@ == old(self)@,
    {
        match self.state {
            ServerState::Active => {
                self.message_queue.push(message);
                proof {
                    assert(final(self)@.message_queue =~= old(self)@.message_queue.push(
                        message@,
                    ));
                    assert(final(self)@ =~~= (ServerV {
                        message_queue: old(self)@.message_queue.push(message@),
                        ..old(self)@
                    }));
                }
            },
            _ => {},
        }
    }

    /// Leaves the simulation: queue and execution table cleared.
    pub fn reset(&mut self)
        ensures
            final(self)@ == (ServerV {
                state: ServerState::SimulationNotStarted,
                message_queue: Seq::<crate::message::MessageComponentV>::empty(),
                active_executions: Seq::<(u64, ServerExecutionV)>::empty(),
                ..old(self)@
            }),
    {
        self.state = ServerState::SimulationNotStarted;
        self.message_queue = Vec::new();
        self.active_executions = Vec::new();
        proof {
            assert(final(self)@.message_queue =~= Seq::<
                crate::message::MessageComponentV,
            >::empty());
            assert(final(self)@.active_executions =~= Seq::<(u64, ServerExecutionV)>::empty());
            assert(final(self)@ =~~= (ServerV {
                state: ServerState::SimulationNotStarted,
                message_queue: Seq::<crate::message::MessageComponentV>::empty(),
                active_executions: Seq::<(u64, ServerExecutionV)>::empty(),
                ..old(self)@
            }));
        }
    }

    /// Removes and returns the whole inbound queue, in arrival order.
    pub fn take_queue(&mut self) -> (q: Vec<crate::message::MessageComponent>)
        ensures
            final(self)@ == (ServerV {
                message_queue: Seq::<crate::message::MessageComponentV>::empty(),
                ..old(self)@
            }),
            Seq::new(q@.len(), |i: int| q@[i]@) == old(self)@.message_queue,
    {
        let mut q: Vec<crate::message::MessageComponent> = Vec::new();
        core::mem::swap(&mut q, &mut self.message_queue);
        proof {
            assert(final(self)@.message_queue =~= Seq::<
                crate::message::MessageComponentV,
            >::empty());
            assert(final(self)@ =~~= (ServerV {
                message_queue: Seq::<crate::message::MessageComponentV>::empty(),
                ..old(self)@
            }));
            assert(Seq::new(q@.len(), |i: int| q@[i]@) =~= old(self)@.message_queue);
        }
        q
    }

    /// Matches an inbound request against the endpoints, in order, and
    /// seeds an execution from the first match, with the bound path
    /// parameters attached to the request.
    #[verifier::loop_isolation(false)]
    pub fn create_execution_for_request(
        &self,
        request: Request,
        original_sender: u64,
        original_trace_id: u64,
    ) -> (r: Option<ServerExecution>)
        ensures
            match find_endpoint(self@.endpoint_handlers, request@.method, request@.path) {
                Some(k) => r matches Some(e) && e@ == (ServerExecutionV {
                    request_handler: self@.endpoint_handlers[k].handler,
                    request: crate::message::RequestV {
                        params: params_of(
                            split_seq(request@.path, '/'),
                            split_seq(self@.endpoint_handlers[k].path, '/'),
                        ),
                        ..request@
                    },
                    yield_values: Seq::<JVal>::empty(),
                    original_sender,
                    original_trace_id,
                }),
                None => r is None,
            },
    {
        let path_segs = split_path(request.path.as_str());
        let n = self.endpoint_handlers.len();
        let mut i: usize = 0;
        while i < n
            invariant
                n == self.endpoint_handlers@.len(),
                i <= n,
                vv(path_segs@) == split_seq(request@.path, '/'),
                forall|j: int|
                    0 <= j < i ==> !((#[trigger] self@.endpoint_handlers[j]).method
                        == request@.method && path_matches(
                        request@.path,
                        self@.endpoint_handlers[j].path,
                    )),
            decreases n - i,
        {
            if self.endpoint_handlers[i].method == request.method {
                match match_one(&path_segs, &self.endpoint_handlers[i].path) {
                    Some(params) => {
                        proof {
                            lemma_find_endpoint_value(
                                self@.endpoint_handlers,
                                request@.method,
                                request@.path,
                                i as int,
                            );
                        }
                        let handler = self.endpoint_handlers[i].handler.clone();
                        let bound = Request {
                            url: request.url,
                            path: request.path,
                            method: request.method,
                            body: request.body,
                            params,
                        };
                        let e = ServerExecution::new(
                            handler,
                            bound,
                            original_sender,
                            original_trace_id,
                        );
                        proof {
                            let k = i as int;
                            assert(e@.request.params =~= params_of(
                                split_seq(request@.path, '/'),
                                split_seq(self@.endpoint_handlers[k].path, '/'),
                            ));
                            assert(e@ =~~= (ServerExecutionV {
                                request_handler: self@.endpoint_handlers[k].handler,
                                request: crate::message::RequestV {
                                    params: params_of(
                                        split_seq(request@.path, '/'),
                                        split_seq(self@.endpoint_handlers[k].path, '/'),
                                    ),
                                    ..request@
                                },
                                yield_values: Seq::<JVal>::empty(),
                                original_sender,
                                original_trace_id,
                            }));
                        }
                        return Some(e);
                    },
                    None => {},
                }
            }
            i = i + 1;
        }
        proof {
            lemma_find_endpoint_none(self@.endpoint_handlers, request@.method, request@.path);
        }
        None
    }

    /// Removes the execution waiting on `trace_id`, if any.
    #[verifier::loop_isolation(false)]
    pub fn remove_execution(&mut self, trace_id: u64) -> (r: Option<ServerExecution>)
        ensures
            final(self)@.endpoint_handlers == old(self)@.endpoint_handlers,
            final(self)@.message_queue == old(self)@.message_queue,
            final(self)@.state == old(self)@.state,
            final(self)@.can_be_edited == old(self)@.can_be_edited,
            final(self)@.max_concurrent_connections == old(self)@.max_concurrent_connections,
            match exec_index(old(self)@.active_executions, trace_id) {
                Some(k) => {
                    let table = old(self)@.active_executions;
                    r matches Some(e) && e@ == table[k].1 && final(self)@.active_executions
                        == table.subrange(0, k) + table.subrange(k + 1, table.len() as int)
                },
                None => r is None && final(self)@.active_executions
                    == old(self)@.active_executions,
            },
    {
        proof {
            lemma_exec_index(old(self)@.active_executions, trace_id);
        }
        let n = self.active_executions.len();
        let mut i: usize = 0;
        while i < n
            invariant
                n == self.active_executions@.len(),
                self@ == old(self)@,
                i <= n,
                forall|k: int| 0 <= k < i ==> self@.active_executions[k].0 != trace_id,
            decreases n - i,
        {
            if self.active_executions[i].0 == trace_id {
                proof {
                    lemma_exec_index_value(old(self)@.active_executions, trace_id, i as int);
                }
                let entry = self.active_executions.remove(i);
                proof {
                    let table = old(self)@.active_executions;
                    assert(final(self)@.active_executions =~~= table.subrange(0, i as int)
                        + table.subrange(i as int + 1, table.len() as int));
                }
                return Some(entry.1);
            }
            i = i + 1;
        }
        proof {
            lemma_exec_index_none(old(self)@.active_executions, trace_id);
        }
        None
    }

    /// Stores an execution under the trace id of the sub-call it now
    /// waits on.
    pub fn insert_execution(&mut self, trace_id: u64, execution: ServerExecution)
        ensures
            final(self)@ == (ServerV {
                active_executions: old(self)@.active_executions.push((trace_id, execution@)),
                ..old(self)@
            }),
    {
        self.active_executions.push((trace_id, execution));
        proof {
            assert(final(self)@.active_executions =~= old(self)@.active_executions.push(
                (trace_id, execution@),
            ));
            assert(final(self)@ =~~= (ServerV {
                active_executions: old(self)@.active_executions.push((trace_id, execution@)),
                ..old(self)@
            }));
        }
    }

    /// Whether an endpoint's path is valid and does not collide with any
    /// other endpoint's normalized (method, path) pair.
    #[verifier::loop_isolation(false)]
    pub fn is_path_valid(&self, idx: usize) -> (r: bool)
        requires
            idx < self@.endpoint_handlers.len(),
        ensures
            r == (path_shape_valid(self@.endpoint_handlers[idx as int].path) && forall|j: int|
                0 <= j < self@.endpoint_handlers.len() && j != idx
                    ==> !((#[trigger] self@.endpoint_handlers[j]).method
                    == self@.endpoint_handlers[idx as int].method && strip_params_spec(
                    self@.endpoint_handlers[j].path,
                ) == strip_params_spec(self@.endpoint_handlers[idx as int].path))),
    {
        if !self.endpoint_handlers[idx].is_path_valid() {
            return false;
        }
        let own_stripped = strip_params(self.endpoint_handlers[idx].path.as_str());
        let n = self.endpoint_handlers.len();
        let mut j: usize = 0;
        while j < n
            invariant
                n == self.endpoint_handlers@.len(),
                j <= n,
                own_stripped@ == strip_params_spec(self@.endpoint_handlers[idx as int].path),
                forall|k: int|
                    0 <= k < j && k != idx ==> !((#[trigger] self@.endpoint_handlers[k]).method
                        == self@.endpoint_handlers[idx as int].method && strip_params_spec(
                        self@.endpoint_handlers[k].path,
                    ) == strip_params_spec(self@.endpoint_handlers[idx as int].path)),
            decreases n - j,
        {
            if j != idx && self.endpoint_handlers[j].method == self.endpoint_handlers[idx].method {
                let other = strip_params(self.endpoint_handlers[j].path.as_str());
                if crate::strutil::key_eq(&other, &own_stripped) {
                    proof {
                        let jj = j as int;
                        assert(self@.endpoint_handlers[jj].method == self@.endpoint_handlers[
                            idx as int
                        ].method && strip_params_spec(self@.endpoint_handlers[jj].path)
                            == strip_params_spec(self@.endpoint_handlers[idx as int].path));
                    }
                    return false;
                }
            }
            j = j + 1;
        }
        true
    }

    /// Whether the server as a whole is valid: all normalized
    /// (method, path) pairs distinct, and every endpoint valid.
    #[verifier::loop_isolation(false)]
    pub fn is_valid(&self) -> (r: bool)
        ensures
            r == server_valid(self@),
    {
        let n = self.endpoint_handlers.len();
        let mut j: usize = 0;
        while j < n
            invariant
                n == self.endpoint_handlers@.len(),
                j <= n,
                forall|a: int, b: int|
                    0 <= a < b < n && a < j ==> !((#[trigger] self@.endpoint_handlers[a]).method
                        == (#[trigger] self@.endpoint_handlers[b]).method && strip_params_spec(
                        self@.endpoint_handlers[a].path,
                    ) == strip_params_spec(self@.endpoint_handlers[b].path)),
            decreases n - j,
        {
            let own = strip_params(self.endpoint_handlers[j].path.as_str());
            let mut k: usize = j + 1;
            while k < n
                invariant
                    n == self.endpoint_handlers@.len(),
                    j < k <= n || (j + 1 == k && k > n),
                    j < n,
                    own@ == strip_params_spec(self@.endpoint_handlers[j as int].path),
                    forall|b: int|
                        j < b < k ==> !((#[trigger] self@.endpoint_handlers[j as int]).method
                            == self@.endpoint_handlers[b].method && strip_params_spec(
                            self@.endpoint_handlers[j as int].path,
                        ) == strip_params_spec(self@.endpoint_handlers[b].path)),
                decreases n - k,
            {
                if self.endpoint_handlers[k].method == self.endpoint_handlers[j].method {
                    let other = strip_params(self.endpoint_handlers[k].path.as_str());
                    if crate::strutil::key_eq(&own, &other) {
                        proof {
                            let a = j as int;
                            let b = k as int;
                            assert(self@.endpoint_handlers[a].method == self@.endpoint_handlers[
                                b
                            ].method && strip_params_spec(self@.endpoint_handlers[a].path)
                                == strip_params_spec(self@.endpoint_handlers[b].path));
                        }
                        return false;
                    }
                }
                k = k + 1;
            }
            j = j + 1;
        }
        let mut j: usize = 0;
        while j < n
            invariant
                n == self.endpoint_handlers@.len(),
                j <= n,
                forall|a: int, b: int|
                    0 <= a < b < n ==> !((#[trigger] self@.endpoint_handlers[a]).method == (
                    #[trigger] self@.endpoint_handlers[b]).method && strip_params_spec(
                        self@.endpoint_handlers[a].path,
                    ) == strip_params_spec(self@.endpoint_handlers[b].path)),
                forall|a: int|
                    0 <= a < j ==> {
                        let e = #[trigger] self@.endpoint_handlers[a];
                        path_shape_valid(e.path) && e.handler.len() > 0 && script_accepted(
                            e.handler,
                        )
                    },
            decreases n - j,
        {
            if !self.endpoint_handlers[j].is_valid() {
                proof {
                    let a = j as int;
                    assert(!(path_shape_valid(self@.endpoint_handlers[a].path)
                        && self@.endpoint_handlers[a].handler.len() > 0 && script_accepted(
                        self@.endpoint_handlers[a].handler,
                    )));
                }
                return false;
            }
            proof {
                let a = j as int;
                assert(path_shape_valid(self@.endpoint_handlers[a].path)
                    && self@.endpoint_handlers[a].handler.len() > 0 && script_accepted(
                    self@.endpoint_handlers[a].handler,
                ));
            }
            j = j + 1;
        }
        true
    }
}

} // verus!
