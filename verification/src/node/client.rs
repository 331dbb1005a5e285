//! Client nodes: authored request configurations with expectations, and
//! the client state machine that sends each request in turn and stores
//! the responses.

use vstd::prelude::*;
use vstd::string::StrSliceExecFns;
use vstd::string::StringExecFns;
use crate::json::{jval, ser, JVal, JsonValue};
use crate::message::{Message, MessageComponent, Request, Response, SendMessageEvent};
use crate::strutil::{chars_to_string, push_chars, push_str_chars};

verus! {

broadcast use vstd::std_specs::vec::group_vec_axioms, vstd::seq::group_seq_axioms;

/// The HTTP methods a request can use.
#[derive(Clone, Copy, Debug, Default, PartialEq, Eq, Structural, Hash)]
pub enum HttpMethod {
    #[default]
    Get,
    Post,
    Put,
    Delete,
}

impl HttpMethod {
    /// The method's name, as it appears on the wire.
    pub open spec fn spec_name(self) -> Seq<char> {
        match self {
            HttpMethod::Get => "Get"@,
            HttpMethod::Post => "Post"@,
            HttpMethod::Put => "Put"@,
            HttpMethod::Delete => "Delete"@,
        }
    }

    /// The method's name.
    pub fn as_str(&self) -> (r: &'static str)
        ensures
            r@ == self.spec_name(),
    {
        match self {
            HttpMethod::Get => "Get",
            HttpMethod::Post => "Post",
            HttpMethod::Put => "Put",
            HttpMethod::Delete => "Delete",
        }
    }

    /// Whether requests with this method carry a body.
    pub open spec fn spec_has_body(self) -> bool {
        self is Post || self is Put
    }
}

/// The model of an expectation.
#[verifier::ext_equal]
pub enum ResponseExpectationV {
    Status(u16),
    ExactBody(JVal),
    ExactSet(Seq<JVal>),
}

/// A declarative check applied to a received response: status-code
/// equality, exact-body equality, or exact-set equality of an array
/// payload.
#[derive(Debug)]
pub enum ResponseExpectation {
    Status(u16),
    ExactBody(JsonValue),
    ExactSet(Vec<JsonValue>),
}

impl View for ResponseExpectation {
    type V = ResponseExpectationV;

    open spec fn view(&self) -> ResponseExpectationV {
        match self {
            ResponseExpectation::Status(s) => ResponseExpectationV::Status(*s),
            ResponseExpectation::ExactBody(v) => ResponseExpectationV::ExactBody(jval(*v)),
            ResponseExpectation::ExactSet(vs) => ResponseExpectationV::ExactSet(
                crate::json::jval_arr(vs@),
            ),
        }
    }
}

/// Whether a response meets an expectation.
pub open spec fn expectation_passed(e: ResponseExpectationV, resp: crate::message::ResponseV) -> bool {
    match e {
        ResponseExpectationV::Status(s) => s == resp.status,
        ResponseExpectationV::ExactBody(v) => v == resp.data,
        ResponseExpectationV::ExactSet(vs) => match resp.data {
            JVal::Arr(items) => vs.len() == items.len() && forall|i: int|
                0 <= i < items.len() ==> vs.contains(items[i]),
            _ => false,
        },
    }
}

/// The text of an expectation's result: what was expected, and, when the
/// check failed, what was received.
pub open spec fn expectation_text(
    name: Seq<char>,
    expected: Seq<char>,
    actual: Seq<char>,
    passed: bool,
) -> Seq<char> {
    "Expected "@ + name + " "@ + expected + if passed {
        Seq::<char>::empty()
    } else {
        ", received "@ + actual
    }
}

/// Compares an expected against an actual value and renders the result
/// text; `name` says which part of the response was checked.
pub fn get_expectation_result(name: &str, expected: &JsonValue, actual: &JsonValue) -> (r: (
    bool,
    String,
))
    ensures
        r.0 == (expected@ == actual@),
        r.1@ == expectation_text(name@, ser(expected@), ser(actual@), expected@ == actual@),
{
    let passed = crate::json::json_eq(expected, actual);
    let mut out: Vec<char> = Vec::new();
    push_str_chars(&mut out, "Expected ");
    push_str_chars(&mut out, name);
    push_str_chars(&mut out, " ");
    let exp_txt = crate::json::to_chars(expected);
    push_chars(&mut out, &exp_txt);
    if !passed {
        push_str_chars(&mut out, ", received ");
        let act_txt = crate::json::to_chars(actual);
        push_chars(&mut out, &act_txt);
    }
    (passed, chars_to_string(&out))
}

/// The result one expectation yields against a response.
pub open spec fn expectation_result(
    e: ResponseExpectationV,
    resp: crate::message::ResponseV,
) -> (bool, Seq<char>) {
    let passed = expectation_passed(e, resp);
    match e {
        ResponseExpectationV::Status(s) => (
            passed,
            expectation_text(
                "status"@,
                crate::strutil::dec_int(s as int),
                crate::strutil::dec_int(resp.status as int),
                passed,
            ),
        ),
        ResponseExpectationV::ExactBody(v) => (
            passed,
            expectation_text("body"@, ser(v), ser(resp.data), passed),
        ),
        ResponseExpectationV::ExactSet(vs) => match resp.data {
            JVal::Arr(_) => (
                passed,
                expectation_text("body"@, ser(JVal::Arr(vs)), ser(resp.data), passed),
            ),
            _ => (false, Seq::<char>::empty()),
        },
    }
}

impl ResponseExpectation {
    /// Checks this expectation against a response and renders the result.
    pub fn verify(&self, response: &Response) -> (r: (bool, String))
        ensures
            (r.0, r.1@) == expectation_result(self@, response@),
    {
        match self {
            ResponseExpectation::Status(exp_status) => {
                let expected = JsonValue::Int(*exp_status as i64);
                let actual = JsonValue::Int(response.status as i64);
                let r = get_expectation_result("status", &expected, &actual);
                proof {
                    assert((expected@ == actual@) == (self@->Status_0 == response@.status));
                }
                r
            },
            ResponseExpectation::ExactBody(expected) => {
                let r = get_expectation_result("body", expected, &response.data);
                r
            },
            ResponseExpectation::ExactSet(expected_elems) => {
                match &response.data {
                    JsonValue::Arr(actual_elems) => {
                        proof {
                            crate::json::lemma_jval_arr(expected_elems@);
                            crate::json::lemma_jval_arr(actual_elems@);
                        }
                        let mut passed = expected_elems.len() == actual_elems.len();
                        let mut i: usize = 0;
                        while i < actual_elems.len()
                            invariant
                                response.data == JsonValue::Arr(*actual_elems),
                                jval_arr_facts(*expected_elems),
                                jval_arr_facts(*actual_elems),
                                i <= actual_elems@.len(),
                                passed == (expected_elems@.len() == actual_elems@.len()
                                    && forall|k: int|
                                    0 <= k < i ==> crate::json::jval_arr(expected_elems@).contains(
                                        crate::json::jval_arr(actual_elems@)[k],
                                    )),
                            decreases actual_elems@.len() - i,
                        {
                            let found = contains_value(expected_elems, &actual_elems[i]);
                            proof {
                                assert(crate::json::jval_arr(actual_elems@)[i as int] == jval(
                                    actual_elems@[i as int],
                                ));
                                assert(found == crate::json::jval_arr(expected_elems@).contains(
                                    crate::json::jval_arr(actual_elems@)[i as int],
                                ));
                            }
                            passed = passed && found;
                            i = i + 1;
                        }
                        let expected_value = deep_copy_arr(expected_elems);
                        let mut out: Vec<char> = Vec::new();
                        push_str_chars(&mut out, "Expected ");
                        push_str_chars(&mut out, "body");
                        push_str_chars(&mut out, " ");
                        let exp_txt = crate::json::to_chars(&expected_value);
                        push_chars(&mut out, &exp_txt);
                        if !passed {
                            push_str_chars(&mut out, ", received ");
                            let act_txt = crate::json::to_chars(&response.data);
                            push_chars(&mut out, &act_txt);
                        }
                        (passed, chars_to_string(&out))
                    },
                    _ => (false, String::new()),
                }
            },
        }
    }
}

/// The element-by-element facts of `jval_arr`, as a single predicate for
/// loop invariants.
pub open spec fn jval_arr_facts(v: Vec<JsonValue>) -> bool {
    crate::json::jval_arr(v@).len() == v@.len() && forall|i: int|
        0 <= i < v@.len() ==> crate::json::jval_arr(v@)[i] == jval(v@[i])
}

fn contains_value(hay: &Vec<JsonValue>, needle: &JsonValue) -> (r: bool)
    ensures
        r == crate::json::jval_arr(hay@).contains(jval(*needle)),
{
    proof {
        crate::json::lemma_jval_arr(hay@);
    }
    let mut i: usize = 0;
    while i < hay.len()
        invariant
            jval_arr_facts(*hay),
            i <= hay@.len(),
            forall|k: int| 0 <= k < i ==> crate::json::jval_arr(hay@)[k] != jval(*needle),
        decreases hay@.len() - i,
    {
        if crate::json::json_eq(&hay[i], needle) {
            proof {
                assert(crate::json::jval_arr(hay@)[i as int] == jval(*needle));
            }
            return true;
        }
        i = i + 1;
    }
    proof {
        if crate::json::jval_arr(hay@).contains(jval(*needle)) {
            let k = choose|k: int|
                0 <= k < crate::json::jval_arr(hay@).len() && crate::json::jval_arr(hay@)[k]
                    == jval(*needle);
            assert(crate::json::jval_arr(hay@)[k] != jval(*needle));
        }
    }
    false
}

fn deep_copy_arr(items: &Vec<JsonValue>) -> (r: JsonValue)
    ensures
        r@ == JVal::Arr(crate::json::jval_arr(items@)),
{
    let mut acc: Vec<JsonValue> = Vec::new();
    proof {
        crate::json::lemma_jval_arr(items@);
    }
    let mut i: usize = 0;
    while i < items.len()
        invariant
            jval_arr_facts(*items),
            i <= items@.len(),
            acc@.len() == i,
            crate::json::jval_arr(acc@) == crate::json::jval_arr(items@).subrange(0, i as int),
        decreases items@.len() - i,
    {
        let e = crate::json::deep_copy(&items[i]);
        proof {
            crate::json::lemma_jval_arr_push(acc@, e);
            assert(crate::json::jval_arr(acc@).push(jval(e)) =~= crate::json::jval_arr(
                items@,
            ).subrange(0, i as int + 1));
        }
        acc.push(e);
        i = i + 1;
    }
    proof {
        assert(crate::json::jval_arr(items@).subrange(0, items@.len() as int)
            =~= crate::json::jval_arr(items@));
    }
    JsonValue::Arr(acc)
}

/// The model of a request configuration.
#[verifier::ext_equal]
pub struct RequestConfigV {
    pub url: Seq<char>,
    pub path: Seq<char>,
    pub method: HttpMethod,
    pub body: Seq<char>,
    pub trace_id: u64,
    pub response: Option<crate::message::ResponseV>,
    pub expectations: Seq<ResponseExpectationV>,
    pub expectations_results: Seq<(bool, Seq<char>)>,
}

/// One request a client is configured to send: target hostname, path,
/// method, body text, the expectations to check, and, once the
/// simulation ran, the observed response and the expectations' results.
#[derive(Debug)]
pub struct RequestConfig {
    pub url: String,
    pub path: String,
    pub method: HttpMethod,
    pub body: String,
    trace_id: u64,
    pub response: Option<Response>,
    expectations: Vec<ResponseExpectation>,
    pub expectations_results: Vec<(bool, String)>,
}

impl View for RequestConfig {
    type V = RequestConfigV;

    closed spec fn view(&self) -> RequestConfigV {
        RequestConfigV {
            url: self.url@,
            path: self.path@,
            method: self.method,
            body: self.body@,
            trace_id: self.trace_id,
            response: match &self.response {
                Some(r) => Some(r@),
                None => None,
            },
            expectations: Seq::new(self.expectations@.len(), |i: int| self.expectations@[i]@),
            expectations_results: Seq::new(
                self.expectations_results@.len(),
                |i: int| (self.expectations_results@[i].0, self.expectations_results@[i].1@),
            ),
        }
    }
}

impl Default for RequestConfig {
    /// A fresh configuration: empty hostname, root path, `Get`, an empty
    /// JSON object as body, a newly minted trace id, no response yet.
    fn default() -> (r: RequestConfig)
        ensures
            r@.url == Seq::<char>::empty(),
            r@.path == "/"@,
            r@.method == HttpMethod::Get,
            r@.body == "{}"@,
            r@.response is None,
            r@.expectations == Seq::<ResponseExpectationV>::empty(),
            r@.expectations_results == Seq::<(bool, Seq<char>)>::empty(),
    {
        let r = RequestConfig {
            url: String::new(),
            path: String::from_str("/"),
            method: HttpMethod::Get,
            body: String::from_str("{}"),
            trace_id: crate::message::fresh_trace_id(),
            response: None,
            expectations: Vec::new(),
            expectations_results: Vec::new(),
        };
        proof {
            assert(r@.expectations =~= Seq::<ResponseExpectationV>::empty());
            assert(r@.expectations_results =~= Seq::<(bool, Seq<char>)>::empty());
        }
        r
    }
}

impl RequestConfig {
    /// A configuration for one request.
    pub fn new(url: String, path: String, method: HttpMethod, body: String) -> (r: RequestConfig)
        ensures
            r@.url == url@,
            r@.path == path@,
            r@.method == method,
            r@.body == body@,
            r@.response is None,
            r@.expectations == Seq::<ResponseExpectationV>::empty(),
            r@.expectations_results == Seq::<(bool, Seq<char>)>::empty(),
    {
        let r = RequestConfig {
            url,
            path,
            method,
            body,
            trace_id: crate::message::fresh_trace_id(),
            response: None,
            expectations: Vec::new(),
            expectations_results: Vec::new(),
        };
        proof {
            assert(r@.expectations =~= Seq::<ResponseExpectationV>::empty());
            assert(r@.expectations_results =~= Seq::<(bool, Seq<char>)>::empty());
        }
        r
    }

    /// Adds an expectation to check against the response.
    pub fn expect(self, e: ResponseExpectation) -> (r: RequestConfig)
        ensures
            r@ == (RequestConfigV { expectations: self@.expectations.push(e@), ..self@ }),
    {
        let ghost olds = self@;
        let mut this = self;
        this.expectations.push(e);
        proof {
            assert(this@.expectations =~= olds.expectations.push(e@));
            assert(this@.expectations_results =~= olds.expectations_results);
        }
        this
    }

    /// The trace id this configuration's request will carry.
    pub fn trace_id(&self) -> (r: u64)
        ensures
            r == self@.trace_id,
    {
        self.trace_id
    }

    /// Clears what a simulation run filled in.
    pub fn reset(&mut self)
        ensures
            final(self)@ == (RequestConfigV {
                response: None,
                expectations_results: Seq::<(bool, Seq<char>)>::empty(),
                ..old(self)@
            }),
    {
        self.response = None;
        self.expectations_results = Vec::new();
        proof {
            assert(final(self)@.expectations_results =~= Seq::<(bool, Seq<char>)>::empty());
            assert(final(self)@.expectations =~= old(self)@.expectations);
        }
    }

    /// The results every expectation yields against `resp`, in order.
    pub open spec fn spec_results(
        exps: Seq<ResponseExpectationV>,
        resp: crate::message::ResponseV,
    ) -> Seq<(bool, Seq<char>)> {
        Seq::new(exps.len(), |i: int| expectation_result(exps[i], resp))
    }

    /// Checks every expectation against the stored response, appending
    /// each result; without a stored response the check fails and
    /// appends nothing.
    pub fn verify(&mut self) -> (passed: bool)
        ensures
            match old(self)@.response {
                None => passed == false && final(self)@ == old(self)@,
                Some(resp) => {
                    &&& passed == (forall|i: int|
                        0 <= i < old(self)@.expectations.len() ==> expectation_passed(
                            #[trigger] old(self)@.expectations[i],
                            resp,
                        ))
                    &&& final(self)@ == (RequestConfigV {
                        expectations_results: old(self)@.expectations_results
                            + Self::spec_results(old(self)@.expectations, resp),
                        ..old(self)@
                    })
                },
            },
    {
        match &self.response {
            Some(response) => {
                let ghost resp = response@;
                let ghost exps = self@.expectations;
                let ghost oldresults = self@.expectations_results;
                let mut passed = true;
                let n = self.expectations.len();
                proof {
                    assert(self@.expectations_results =~~= oldresults + Self::spec_results(
                        exps.subrange(0, 0),
                        resp,
                    ));
                }
                let mut i: usize = 0;
                while i < n
                    invariant
                        n == self.expectations@.len(),
                        i <= n,
                        self.url == old(self).url,
                        self.path == old(self).path,
                        self.method == old(self).method,
                        self.body == old(self).body,
                        self.trace_id == old(self).trace_id,
                        self.expectations@ == old(self).expectations@,
                        exps == self@.expectations,
                        oldresults == old(self)@.expectations_results,
                        match (&self.response, &old(self).response) {
                            (Some(a), Some(b)) => a@ == b@ && a@ == resp,
                            _ => false,
                        },
                        passed == (forall|k: int|
                            0 <= k < i ==> expectation_passed(#[trigger] exps[k], resp)),
                        self@.expectations_results == oldresults + Self::spec_results(
                            exps.subrange(0, i as int),
                            resp,
                        ),
                    decreases n - i,
                {
                    let ghost preview = self@.expectations_results;
                    let result = self.expectations[i].verify(match &self.response {
                        Some(r) => r,
                        None => {
                            proof {
                                assert(false);
                            }
                            unreached()
                        },
                    });
                    if !result.0 {
                        passed = false;
                    }
                    let ghost pushed = (result.0, result.1@);
                    self.expectations_results.push(result);
                    proof {
                        assert(exps[i as int] == self.expectations@[i as int]@);
                        assert(pushed == expectation_result(exps[i as int], resp));
                        let newview = self@.expectations_results;
                        let target = oldresults + Self::spec_results(
                            exps.subrange(0, i as int + 1),
                            resp,
                        );
                        assert(newview.len() == preview.len() + 1);
                        assert forall|k: int|
                            0 <= k < newview.len() implies newview[k] == target[k] by {
                            if k < preview.len() {
                                assert(newview[k] == preview[k]);
                                assert(preview[k] == (oldresults + Self::spec_results(
                                    exps.subrange(0, i as int),
                                    resp,
                                ))[k]);
                                if k >= oldresults.len() {
                                    assert(preview[k] == expectation_result(
                                        exps.subrange(0, i as int)[k - oldresults.len()],
                                        resp,
                                    ));
                                    assert(exps.subrange(0, i as int)[k - oldresults.len()]
                                        == exps.subrange(0, i as int + 1)[k - oldresults.len()]);
                                }
                            } else {
                                assert(newview[k] == pushed);
                                assert(target[k] == expectation_result(
                                    exps.subrange(0, i as int + 1)[i as int],
                                    resp,
                                ));
                                assert(exps.subrange(0, i as int + 1)[i as int] == exps[i as int]);
                            }
                        }
                        assert(newview =~= target);
                    }
                    i = i + 1;
                }
                proof {
                    assert(exps.subrange(0, exps.len() as int) =~= exps);
                    assert(final(self)@ == (RequestConfigV {
                        expectations_results: old(self)@.expectations_results
                            + Self::spec_results(old(self)@.expectations, resp),
                        ..old(self)@
                    }));
                }
                passed
            },
            None => false,
        }
    }

    /// A hostname must not be empty.
    pub fn is_url_valid(&self) -> (r: bool)
        ensures
            r == (self@.url.len() > 0),
    {
        !self.url.as_str().is_empty()
    }

    /// A path must not be empty.
    pub fn is_path_valid(&self) -> (r: bool)
        ensures
            r == (self@.path.len() > 0),
    {
        !self.path.as_str().is_empty()
    }

    /// The body must be JSON text.
    pub fn is_body_valid(&self) -> (r: bool)
        ensures
            r == json_accepts(self@.body),
    {
        json_text_accepted(self.body.as_str())
    }

    /// All three validity checks together.
    pub fn is_valid(&self) -> (r: bool)
        ensures
            r == (self@.url.len() > 0 && self@.path.len() > 0 && json_accepts(self@.body)),
    {
        self.is_url_valid() && self.is_path_valid() && self.is_body_valid()
    }

    /// The request this configuration sends: methods without a body send
    /// JSON `null`.
    pub fn to_request(&self) -> (r: Request)
        ensures
            r@.url == self@.url,
            r@.path == self@.path,
            r@.method == self@.method,
            r@.body == if self@.method.spec_has_body() {
                self@.body
            } else {
                "null"@
            },
            r@.params == Seq::<(Seq<char>, Seq<char>)>::empty(),
    {
        let body = match self.method {
            HttpMethod::Get | HttpMethod::Delete => String::from_str("null"),
            HttpMethod::Post | HttpMethod::Put => self.body.clone(),
        };
        let r = Request {
            url: self.url.clone(),
            path: self.path.clone(),
            method: self.method,
            body,
            params: Vec::new(),
        };
        proof {
            assert(r@.params =~= Seq::<(Seq<char>, Seq<char>)>::empty());
        }
        r
    }
}

/// The client state machine's states.
#[derive(Clone, Copy, Debug, PartialEq, Eq, Structural)]
pub enum ClientState {
    SimulationNotStarted,
    SendNextRequest,
    Waiting(u64),
    Finished,
}

/// The model of a client.
#[verifier::ext_equal]
pub struct ClientV {
    pub request_configs: Seq<RequestConfigV>,
    pub state: ClientState,
    pub curr_request_idx: usize,
    pub can_be_edited: bool,
}

/// A client node: an ordered list of request configurations, sent one at
/// a time, and a cursor over them.
#[derive(Debug)]
pub struct Client {
    pub request_configs: Vec<RequestConfig>,
    pub state: ClientState,
    curr_request_idx: usize,
    can_be_edited: bool,
}

impl View for Client {
    type V = ClientV;

    closed spec fn view(&self) -> ClientV {
        ClientV {
            request_configs: Seq::new(
                self.request_configs@.len(),
                |i: int| self.request_configs@[i]@,
            ),
            state: self.state,
            curr_request_idx: self.curr_request_idx,
            can_be_edited: self.can_be_edited,
        }
    }
}

/// The first configuration carrying trace id `t`.
pub open spec fn first_trace(cs: Seq<RequestConfigV>, t: u64) -> Option<int>
    decreases cs.len(),
{
    if cs.len() == 0 {
        None
    } else if cs[0].trace_id == t {
        Some(0int)
    } else {
        match first_trace(cs.subrange(1, cs.len() as int), t) {
            Some(i) => Some(i + 1),
            None => None,
        }
    }
}

/// What `first_trace` says, member by member.
pub proof fn lemma_first_trace(cs: Seq<RequestConfigV>, t: u64)
    ensures
        match first_trace(cs, t) {
            Some(i) => 0 <= i < cs.len() && cs[i].trace_id == t && forall|j: int|
                0 <= j < i ==> cs[j].trace_id != t,
            None => forall|j: int| 0 <= j < cs.len() ==> cs[j].trace_id != t,
        },
    decreases cs.len(),
{
    if cs.len() > 0 && cs[0].trace_id != t {
        let sub = cs.subrange(1, cs.len() as int);
        lemma_first_trace(sub, t);
        assert forall|j: int| 1 <= j < cs.len() implies sub[j - 1] == cs[j] by {}
    }
}

/// `first_trace` from its characterization.
pub proof fn lemma_first_trace_value(cs: Seq<RequestConfigV>, t: u64, k: int)
    requires
        0 <= k < cs.len(),
        cs[k].trace_id == t,
        forall|j: int| 0 <= j < k ==> cs[j].trace_id != t,
    ensures
        first_trace(cs, t) == Some(k),
    decreases cs.len(),
{
    if k > 0 {
        let sub = cs.subrange(1, cs.len() as int);
        assert(sub[k - 1] == cs[k]);
        assert forall|j: int| 0 <= j < k - 1 implies sub[j].trace_id != t by {
            assert(sub[j] == cs[j + 1]);
        }
        lemma_first_trace_value(sub, t, k - 1);
    }
}

/// A configuration with its run-time fields cleared.
pub open spec fn reset_config(c: RequestConfigV) -> RequestConfigV {
    RequestConfigV {
        response: None,
        expectations_results: Seq::<(bool, Seq<char>)>::empty(),
        ..c
    }
}

/// The client machine's well-formedness: the cursor stays in range, and
/// while waiting the awaited trace id is the current configuration's.
pub open spec fn client_wf(c: ClientV) -> bool {
    &&& c.curr_request_idx <= c.request_configs.len()
    &&& (c.state matches ClientState::Waiting(t) ==> c.curr_request_idx
        < c.request_configs.len() && c.request_configs[c.curr_request_idx as int].trace_id == t)
}

/// Whether every configuration of a client is valid.
pub open spec fn client_valid(c: ClientV) -> bool {
    forall|i: int|
        0 <= i < c.request_configs.len() ==> {
            let rc = #[trigger] c.request_configs[i];
            rc.url.len() > 0 && rc.path.len() > 0 && json_accepts(rc.body)
        }
}

impl Client {
    /// Every state the machine can be in points at a real configuration
    /// while waiting, and the awaited trace id is that configuration's.
    pub open spec fn wf(self) -> bool {
        client_wf(self@)
    }

    /// The machine's current state.
    pub fn state(&self) -> (r: ClientState)
        ensures
            r == self@.state,
    {
        self.state
    }

    /// The target hostname of the request that is due, when one is.
    pub fn current_url(&self) -> (r: Option<String>)
        ensures
            ({
                let idx = self@.curr_request_idx as int;
                if self@.state == ClientState::SendNextRequest && idx
                    < self@.request_configs.len() {
                    r matches Some(u) && u@ == self@.request_configs[idx].url
                } else {
                    r is None
                }
            }),
    {
        match self.state {
            ClientState::SendNextRequest => {
                if self.curr_request_idx < self.request_configs.len() {
                    Some(self.request_configs[self.curr_request_idx].url.clone())
                } else {
                    None
                }
            },
            _ => None,
        }
    }

    /// A fresh, editable client with one default configuration.
    pub fn new() -> (r: Client)
        ensures
            r@.request_configs.len() == 1,
            r@.state == ClientState::SimulationNotStarted,
            r@.curr_request_idx == 0,
            r@.can_be_edited == true,
            r.wf(),
    {
        let mut configs: Vec<RequestConfig> = Vec::new();
        configs.push(RequestConfig::default());
        Client {
            request_configs: configs,
            state: ClientState::SimulationNotStarted,
            curr_request_idx: 0,
            can_be_edited: true,
        }
    }

    /// Sets whether the client can be edited.
    pub fn editable(self, editable: bool) -> (r: Client)
        ensures
            r@ == (ClientV { can_be_edited: editable, ..self@ }),
    {
        let mut this = self;
        this.can_be_edited = editable;
        this
    }

    /// Replaces the configuration list.
    pub fn request_configs(self, request_configs: Vec<RequestConfig>) -> (r: Client)
        ensures
            r@.request_configs == Seq::new(
                request_configs@.len(),
                |i: int| request_configs@[i]@,
            ),
            r@.state == self@.state,
            r@.curr_request_idx == self@.curr_request_idx,
            r@.can_be_edited == self@.can_be_edited,
    {
        let mut this = self;
        this.request_configs = request_configs;
        this
    }

    /// Whether the client may be edited.
    pub fn can_be_edited(&self) -> (r: bool)
        ensures
            r == self@.can_be_edited,
    {
        self.can_be_edited
    }

    /// Enters the simulation: the first request is due.
    pub fn start_simulation(&mut self)
        requires
            old(self).wf(),
        ensures
            final(self)@ == (ClientV { state: ClientState::SendNextRequest, ..old(self)@ }),
            final(self).wf(),
    {
        self.state = ClientState::SendNextRequest;
    }

    /// Leaves the simulation: cursor to zero, every configuration's
    /// response and results cleared.
    #[verifier::loop_isolation(false)]
    pub fn reset(&mut self)
        ensures
            final(self)@.state == ClientState::SimulationNotStarted,
            final(self)@.curr_request_idx == 0,
            final(self)@.can_be_edited == old(self)@.can_be_edited,
            final(self)@.request_configs.len() == old(self)@.request_configs.len(),
            forall|i: int|
                0 <= i < old(self)@.request_configs.len()
                    ==> final(self)@.request_configs[i] == #[trigger] reset_config(
                    old(self)@.request_configs[i],
                ),
            final(self).wf(),
    {
        self.state = ClientState::SimulationNotStarted;
        self.curr_request_idx = 0;
        let n = self.request_configs.len();
        let mut i: usize = 0;
        while i < n
            invariant
                n == self.request_configs@.len(),
                n == old(self)@.request_configs.len(),
                i <= n,
                self.state == ClientState::SimulationNotStarted,
                self.curr_request_idx == 0,
                self.can_be_edited == old(self).can_be_edited,
                forall|k: int|
                    i <= k < n ==> self@.request_configs[k] == #[trigger] old(
                        self,
                    )@.request_configs[k],
                forall|k: int|
                    0 <= k < i ==> self@.request_configs[k] == #[trigger] reset_config(
                        old(self)@.request_configs[k],
                    ),
            decreases n - i,
        {
            proof {
                assert(self@.request_configs[i as int] == old(self)@.request_configs[i as int]);
            }
            self.request_configs[i].reset();
            proof {
                assert(self@.request_configs[i as int] =~~= reset_config(
                    old(self)@.request_configs[i as int],
                ));
            }
            i = i + 1;
        }
    }

    /// Whether every configuration is valid.
    pub fn is_valid(&self) -> (r: bool)
        ensures
            r == client_valid(self@),
    {
        let mut i: usize = 0;
        while i < self.request_configs.len()
            invariant
                i <= self@.request_configs.len(),
                self@.request_configs.len() == self.request_configs@.len(),
                forall|k: int|
                    0 <= k < i ==> {
                        let c = #[trigger] self@.request_configs[k];
                        c.url.len() > 0 && c.path.len() > 0 && json_accepts(c.body)
                    },
            decreases self@.request_configs.len() - i,
        {
            if !self.request_configs[i].is_valid() {
                proof {
                    assert(self@.request_configs[i as int] == self.request_configs@[i as int]@);
                }
                return false;
            }
            proof {
                assert(self@.request_configs[i as int] == self.request_configs@[i as int]@);
            }
            i = i + 1;
        }
        true
    }

    /// Checks every configuration against its stored response, appending
    /// every configuration's results; the verdict is the conjunction over
    /// all of them.
    #[verifier::loop_isolation(false)]
    pub fn verify(&mut self) -> (passed: bool)
        ensures
            final(self)@.state == old(self)@.state,
            final(self)@.curr_request_idx == old(self)@.curr_request_idx,
            final(self)@.can_be_edited == old(self)@.can_be_edited,
            final(self)@.request_configs.len() == old(self)@.request_configs.len(),
            passed == (forall|i: int|
                0 <= i < old(self)@.request_configs.len() ==> config_passes(
                    #[trigger] old(self)@.request_configs[i],
                )),
            forall|i: int|
                0 <= i < old(self)@.request_configs.len()
                    ==> final(self)@.request_configs[i] == #[trigger] verified_config(
                    old(self)@.request_configs[i],
                ),
    {
        let n = self.request_configs.len();
        let mut passed = true;
        let mut i: usize = 0;
        while i < n
            invariant
                n == self.request_configs@.len(),
                n == old(self)@.request_configs.len(),
                i <= n,
                self.state == old(self).state,
                self.curr_request_idx == old(self).curr_request_idx,
                self.can_be_edited == old(self).can_be_edited,
                forall|k: int|
                    i <= k < n ==> self@.request_configs[k] == #[trigger] old(
                        self,
                    )@.request_configs[k],
                forall|k: int|
                    0 <= k < i ==> self@.request_configs[k] == #[trigger] verified_config(
                        old(self)@.request_configs[k],
                    ),
                passed == (forall|k: int|
                    0 <= k < i ==> config_passes(#[trigger] old(self)@.request_configs[k])),
            decreases n - i,
        {
            proof {
                assert(self@.request_configs[i as int] == old(self)@.request_configs[i as int]);
            }
            let ghost prev = self@.request_configs;
            let p = self.request_configs[i].verify();
            proof {
                assert(self@.request_configs[i as int] =~~= verified_config(
                    old(self)@.request_configs[i as int],
                ));
                assert forall|k: int|
                    0 <= k < n && k != i implies self@.request_configs[k] == prev[k] by {
                    assert(self.request_configs@[k] == old(self).request_configs@[k]
                        || self@.request_configs[k] == prev[k]);
                }
            }
            if !p {
                passed = false;
            }
            i = i + 1;
        }
        passed
    }

    /// Delivers one message.  A response carrying the awaited trace id is
    /// stored on the first configuration with that trace id, the cursor
    /// advances, and the machine continues or finishes; anything else is
    /// ignored.
    #[verifier::loop_isolation(false)]
    pub fn handle_message(&mut self, message: MessageComponent)
        requires
            old(self).wf(),
        ensures
            final(self).wf(),
            ({
                let cs = old(self)@.request_configs;
                match (old(self)@.state, message.message@) {
                    (ClientState::Waiting(t), crate::message::MessageV::Response(resp)) => {
                        if message.trace_id == t {
                            first_trace(cs, t) matches Some(idx) && final(self)@ == (ClientV {
                                request_configs: cs.update(
                                    idx,
                                    RequestConfigV { response: Some(resp), ..cs[idx] },
                                ),
                                curr_request_idx: (old(self)@.curr_request_idx + 1) as usize,
                                state: if old(self)@.curr_request_idx + 1 >= cs.len() {
                                    ClientState::Finished
                                } else {
                                    ClientState::SendNextRequest
                                },
                                ..old(self)@
                            })
                        } else {
                            final(self)@ == old(self)@
                        }
                    },
                    _ => final(self)@ == old(self)@,
                }
            }),
    {
        match self.state {
            ClientState::Waiting(trace_id) => {
                if trace_id == message.trace_id {
                    match message.message {
                        Message::Response(response) => {
                            proof {
                                lemma_first_trace(self@.request_configs, trace_id);
                            }
                            let n = self.request_configs.len();
                            let mut idx: usize = 0;
                            while idx < n
                                invariant
                                    old(self).wf(),
                                    self@ == old(self)@,
                                    n == self.request_configs@.len(),
                                    idx <= n,
                                    self.state == ClientState::Waiting(trace_id),
                                    forall|k: int|
                                        0 <= k < idx
                                            ==> self@.request_configs[k].trace_id != trace_id,
                                decreases n - idx,
                            {
                                if self.request_configs[idx].trace_id() == trace_id {
                                    proof {
                                        lemma_first_trace_value(
                                            old(self)@.request_configs,
                                            trace_id,
                                            idx as int,
                                        );
                                    }
                                    self.request_configs[idx].response = Some(response);
                                    self.curr_request_idx = self.curr_request_idx + 1;
                                    if self.curr_request_idx >= self.request_configs.len() {
                                        self.state = ClientState::Finished;
                                    } else {
                                        self.state = ClientState::SendNextRequest;
                                    }
                                    proof {
                                        let cs = old(self)@.request_configs;
                                        assert(final(self)@.request_configs =~~= cs.update(
                                            idx as int,
                                            RequestConfigV {
                                                response: Some(
                                                    message.message@->Response_0,
                                                ),
                                                ..cs[idx as int]
                                            },
                                        ));
                                    }
                                    return ;
                                }
                                idx = idx + 1;
                            }
                            proof {
                                assert(old(self)@.request_configs[
                                    old(self)@.curr_request_idx as int
                                ].trace_id == trace_id);
                                assert(false);
                            }
                        },
                        _ => {},
                    }
                }
            },
            _ => {},
        }
    }

    /// One turn of the sending step: when a request is due, it either
    /// goes out to the resolved recipient and the client waits for the
    /// response, or, with no route to the hostname, the failure is
    /// recorded and the client finishes.
    #[verifier::loop_isolation(false)]
    pub fn send_step(&mut self, client_entity: u64, recipient: Option<u64>) -> (r: Option<
        SendMessageEvent,
    >)
        requires
            old(self).wf(),
        ensures
            final(self).wf(),
            ({
                let cs = old(self)@.request_configs;
                let idx = old(self)@.curr_request_idx as int;
                if old(self)@.state == ClientState::SendNextRequest && idx < cs.len() {
                    match recipient {
                        Some(rec) => {
                            &&& final(self)@ == (ClientV {
                                state: ClientState::Waiting(cs[idx].trace_id),
                                ..old(self)@
                            })
                            &&& r matches Some(ev) && ev.sender == client_entity
                                && ev.recipients@ == seq![rec] && ev.trace_id == cs[idx].trace_id
                                && (ev.message@ matches crate::message::MessageV::Request(req)
                                && req.url == cs[idx].url && req.path == cs[idx].path && req.method
                                == cs[idx].method && req.body == (if cs[idx].method.spec_has_body() {
                                cs[idx].body
                            } else {
                                "null"@
                            }) && req.params == Seq::<(Seq<char>, Seq<char>)>::empty())
                        },
                        None => {
                            &&& r is None
                            &&& final(self)@ == (ClientV {
                                state: ClientState::Finished,
                                request_configs: cs.update(
                                    idx,
                                    RequestConfigV {
                                        expectations_results: cs[idx].expectations_results.push(
                                            (false, "ERR_CONNECTION_REFUSED"@),
                                        ),
                                        ..cs[idx]
                                    },
                                ),
                                ..old(self)@
                            })
                        },
                    }
                } else {
                    r is None && final(self)@ == old(self)@
                }
            }),
    {
        match self.state {
            ClientState::SendNextRequest => {
                let idx = self.curr_request_idx;
                if idx < self.request_configs.len() {
                    match recipient {
                        Some(rec) => {
                            let trace_id = self.request_configs[idx].trace_id();
                            let request = self.request_configs[idx].to_request();
                            self.state = ClientState::Waiting(trace_id);
                            let mut recipients: Vec<u64> = Vec::new();
                            recipients.push(rec);
                            proof {
                                assert(recipients@ =~= seq![rec]);
                            }
                            Some(
                                SendMessageEvent {
                                    sender: client_entity,
                                    recipients,
                                    message: Message::Request(request),
                                    trace_id,
                                },
                            )
                        },
                        None => {
                            let failure = (
                                false,
                                String::from_str("ERR_CONNECTION_REFUSED"),
                            );
                            self.request_configs[idx].expectations_results.push(failure);
                            self.state = ClientState::Finished;
                            proof {
                                let cs = old(self)@.request_configs;
                                assert(final(self)@.request_configs =~~= cs.update(
                                    idx as int,
                                    RequestConfigV {
                                        expectations_results: cs[
                                            idx as int
                                        ].expectations_results.push(
                                            (false, "ERR_CONNECTION_REFUSED"@),
                                        ),
                                        ..cs[idx as int]
                                    },
                                ));
                            }
                            None
                        },
                    }
                } else {
                    None
                }
            },
            _ => None,
        }
    }
}




/// Whether a configuration's stored response meets all its expectations.
pub open spec fn config_passes(c: RequestConfigV) -> bool {
    c.response matches Some(resp) && forall|i: int|
        0 <= i < c.expectations.len() ==> expectation_passed(#[trigger] c.expectations[i], resp)
}

/// How a configuration looks after the verification pass ran on it:
/// with a stored response, its expectations' results are appended;
/// without one it is unchanged.
pub open spec fn verified_config(c: RequestConfigV) -> RequestConfigV {
    match c.response {
        None => c,
        Some(resp) => RequestConfigV {
            expectations_results: c.expectations_results + RequestConfig::spec_results(
                c.expectations,
                resp,
            ),
            ..c
        },
    }
}

/// Whether `s` is accepted as JSON text.
pub uninterp spec fn json_accepts(s: Seq<char>) -> bool;

/// Relies on serde_json::from_str::<serde_json::Value>: whether `s`
/// parses as JSON.  The result depends on the text alone.
#[verifier::external_body]
fn json_text_accepted(s: &str) -> (r: bool)
    ensures
        r == json_accepts(s@),
{
    serde_json::from_str::<serde_json::Value>(s).is_ok()
}

} // verus!
