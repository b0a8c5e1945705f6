//! The HTTP request that the script asks for: what is to be set on it, step by step, which error a
//! refused step ends in, and what the status of the response means.

use crate::json;
use crate::text;
use std::collections::VecDeque;
use vstd::prelude::*;
use vstd::utf8::*;

verus! {

/// The scheme of a request.
#[derive(Clone, Copy, Debug, PartialEq, Eq, Structural)]
pub enum Scheme {
    Http,
    Https,
}

/// Where a request goes.
#[derive(Debug)]
pub struct Target {
    pub scheme: Scheme,
    pub authority: String,
    pub path: String,
}

/// Where a request goes, in terms of characters.
#[verifier::ext_equal]
pub struct TargetView {
    pub scheme: Scheme,
    pub authority: Seq<char>,
    pub path: Seq<char>,
}

impl View for Target {
    type V = TargetView;

    open spec fn view(&self) -> TargetView {
        TargetView { scheme: self.scheme, authority: self.authority@, path: self.path@ }
    }
}

/// The scheme that a name stands for: `https` in any case, and everything else is plain HTTP.
pub open spec fn scheme_of(name: Seq<char>) -> Scheme {
    if text::same_ignoring_ascii_case(name, "https"@) {
        Scheme::Https
    } else {
        Scheme::Http
    }
}

/// The target of a URL: what stands before the first `://` is the scheme, what then stands before
/// the first slash is the authority, and the path with its query begins at that slash and is `/`
/// where there is none. A URL without `://` has no target.
pub open spec fn target_of(url: Seq<char>) -> Option<TargetView> {
    match text::split_first(url, "://"@) {
        None => None,
        Some((name, rest)) => match text::split_first(rest, "/"@) {
            Some((authority, path)) => Some(
                TargetView { scheme: scheme_of(name), authority, path: "/"@ + path },
            ),
            None => Some(TargetView { scheme: scheme_of(name), authority: rest, path: "/"@ }),
        },
    }
}

/// Targets are the same in terms of characters.
pub proof fn target_view_is_of_the_target(target: Target)
    ensures
        target@.scheme == target.scheme,
        target@.authority == target.authority@,
        target@.path == target.path@,
{
}

/// Finds the target of a URL.
pub fn parse_target(url: &str) -> (target: Option<Target>)
    ensures
        match target {
            Some(target) => target_of(url@) == Some(target@),
            None => target_of(url@) is None,
        },
{
    match text::split_once(url, "://") {
        None => None,
        Some((name, rest)) => {
            let scheme: Scheme = if text::eq_ignore_ascii_case(name, "https") {
                Scheme::Https
            } else {
                Scheme::Http
            };
            match text::split_once(rest, "/") {
                Some((authority, path)) => {
                    let path: String = "/".to_owned().concat(path);
                    Some(Target { scheme, authority: authority.to_owned(), path })
                },
                None => Some(
                    Target { scheme, authority: rest.to_owned(), path: "/".to_owned() },
                ),
            }
        },
    }
}

/// One thing to be done to build the request. Each may be refused.
#[derive(Debug)]
pub enum Step {
    /// Append a header that the script gave.
    Header { name: String, value: Vec<u8> },
    /// Append the header that says how long the body is.
    ContentLength { name: String, value: Vec<u8> },
    /// Make a request of the headers and the body.
    Open,
    /// Set the method to POST.
    Post,
    /// Set the scheme.
    Scheme(Scheme),
    /// Set the authority.
    Authority(String),
    /// Set the path with the query.
    Path(String),
}

/// One thing to be done to build the request, in terms of characters and bytes.
pub enum StepView {
    Header { name: Seq<char>, value: Seq<u8> },
    ContentLength { name: Seq<char>, value: Seq<u8> },
    Open,
    Post,
    Scheme(Scheme),
    Authority(Seq<char>),
    Path(Seq<char>),
}

impl View for Step {
    type V = StepView;

    open spec fn view(&self) -> StepView {
        match self {
            Step::Header { name, value } => StepView::Header { name: name@, value: value@ },
            Step::ContentLength { name, value } => StepView::ContentLength {
                name: name@,
                value: value@,
            },
            Step::Open => StepView::Open,
            Step::Post => StepView::Post,
            Step::Scheme(scheme) => StepView::Scheme(*scheme),
            Step::Authority(authority) => StepView::Authority(authority@),
            Step::Path(path) => StepView::Path(path@),
        }
    }
}

/// Whether a header is the one that says how long the body is.
pub open spec fn is_content_length(name: Seq<char>) -> bool {
    text::same_ignoring_ascii_case(name, "content-length"@)
}

/// Whether one of the headers says how long the body is.
pub open spec fn has_content_length(headers: Seq<(Seq<char>, Seq<char>)>) -> bool {
    exists|i: int| 0 <= i < headers.len() && is_content_length(#[trigger] headers[i].0)
}

/// The step that appends a header.
pub open spec fn header_step(header: (Seq<char>, Seq<char>)) -> StepView {
    StepView::Header { name: header.0, value: encode_utf8(header.1) }
}

/// The length of a body in bytes, as a header holds it.
pub open spec fn length_value(body: Seq<char>) -> Seq<u8> {
    encode_utf8(text::decimal(encode_utf8(body).len()))
}

/// The steps that set where the request goes; none for a URL without a target.
pub open spec fn target_steps(url: Seq<char>) -> Seq<StepView> {
    match target_of(url) {
        Some(target) => seq![
            StepView::Scheme(target.scheme),
            StepView::Authority(target.authority),
            StepView::Path(target.path),
        ],
        None => seq![],
    }
}

/// The step that appends the length of the body; none where the headers have it.
pub open spec fn length_steps(
    headers: Seq<(Seq<char>, Seq<char>)>,
    body: Seq<char>,
) -> Seq<StepView> {
    if has_content_length(headers) {
        seq![]
    } else {
        seq![StepView::ContentLength { name: "content-length"@, value: length_value(body) }]
    }
}

/// All the steps of a request: the headers as they come, the length of the body where they do not
/// have it, then the request itself, its method, and where it goes.
pub open spec fn request_steps(
    url: Seq<char>,
    headers: Seq<(Seq<char>, Seq<char>)>,
    body: Seq<char>,
) -> Seq<StepView> {
    headers.map_values(|header: (Seq<char>, Seq<char>)| header_step(header)) + length_steps(
        headers,
        body,
    ) + seq![StepView::Open, StepView::Post] + target_steps(url)
}

/// Steps, in terms of characters and bytes.
pub open spec fn step_views(steps: Seq<Step>) -> Seq<StepView> {
    steps.map_values(|step: Step| step@)
}

/// Steps are the same in terms of characters and bytes: as many, of the same kind, with the same
/// contents.
pub proof fn step_views_are_of_the_steps(steps: Seq<Step>)
    ensures
        step_views(steps).len() == steps.len(),
        forall|i: int|
            0 <= i < steps.len() ==> match #[trigger] steps[i] {
                Step::Header { name, value } => step_views(steps)[i] == (StepView::Header {
                    name: name@,
                    value: value@,
                }),
                Step::ContentLength { name, value } => step_views(steps)[i] == (
                StepView::ContentLength { name: name@, value: value@ }),
                Step::Open => step_views(steps)[i] is Open,
                Step::Post => step_views(steps)[i] is Post,
                Step::Scheme(scheme) => step_views(steps)[i] == StepView::Scheme(scheme),
                Step::Authority(authority) => step_views(steps)[i] == StepView::Authority(
                    authority@,
                ),
                Step::Path(path) => step_views(steps)[i] == StepView::Path(path@),
            },
{
}

/// Lists the steps of a request.
pub fn plan_steps(url: &str, headers: &Vec<(String, String)>, body: &str) -> (steps: VecDeque<Step>)
    ensures
        step_views(steps@) == request_steps(url@, json::pair_views(headers@), body@),
        headers@.len() + 2 <= steps@.len() <= headers@.len() + 6,
        forall|i: int|
            0 <= i < headers@.len() ==> {
                &&& #[trigger] steps@[i] is Header
                &&& steps@[i]->Header_name@ == headers@[i].0@
                &&& steps@[i]->Header_value@ == encode_utf8(headers@[i].1@)
            },
        !(steps@[headers@.len() as int] is ContentLength) <==> exists|i: int|
            0 <= i < headers@.len() && (#[trigger] headers@[i]).0@.len() == 14 && forall|k: int|
                0 <= k < 14 ==> {
                    ||| #[trigger] headers@[i].0@[k] == "content-length"@[k]
                    ||| 'a' <= "content-length"@[k] && headers@[i].0@[k] as u32 + 32
                        == "content-length"@[k] as u32
                },
        steps@[headers@.len() as int] is ContentLength ==> {
            &&& steps@[headers@.len() as int]->ContentLength_name@ == "content-length"@
            &&& steps@[headers@.len() as int]->ContentLength_value@ == encode_utf8(
                text::decimal(encode_utf8(body@).len()),
            )
        },
{
    let ghost pairs = json::pair_views(headers@);
    let ghost whole = pairs.map_values(|header: (Seq<char>, Seq<char>)| header_step(header));
    let mut steps: VecDeque<Step> = VecDeque::new();
    let mut has_length: bool = false;
    let mut i: usize = 0;
    assert(step_views(steps@) =~= whole.take(0));
    while i < headers.len()
        invariant
            i <= headers@.len(),
            pairs == json::pair_views(headers@),
            whole == pairs.map_values(|header: (Seq<char>, Seq<char>)| header_step(header)),
            step_views(steps@) == whole.take(i as int),
            has_length <==> exists|j: int|
                0 <= j < i && is_content_length(#[trigger] pairs[j].0),
        decreases headers@.len() - i,
    {
        let name: &String = &headers[i].0;
        let value: &String = &headers[i].1;
        assert(pairs[i as int] == (name@, value@));
        if text::eq_ignore_ascii_case(name.as_str(), "content-length") {
            assert(is_content_length(pairs[i as int].0));
            has_length = true;
        }
        let step: Step = Step::Header { name: name.clone(), value: value.as_str().as_bytes_vec() };
        assert(step@ == whole[i as int]);
        let ghost before = steps@;
        steps.push_back(step);
        assert(step_views(steps@) =~= step_views(before).push(step@));
        assert(whole.take(i + 1) =~= whole.take(i as int).push(whole[i as int]));
        i = i + 1;
    }
    assert(whole.take(i as int) =~= whole);
    if !has_length {
        let length: usize = body.as_bytes().len();
        let value: String = text::decimal_text(length as u64);
        let step: Step = Step::ContentLength {
            name: "content-length".to_owned(),
            value: value.as_str().as_bytes_vec(),
        };
        steps.push_back(step);
    }
    assert(step_views(steps@) =~= whole + length_steps(pairs, body@));
    steps.push_back(Step::Open);
    steps.push_back(Step::Post);
    if let Some(target) = parse_target(url) {
        steps.push_back(Step::Scheme(target.scheme));
        steps.push_back(Step::Authority(target.authority));
        steps.push_back(Step::Path(target.path));
    }
    assert(step_views(steps@) =~= request_steps(url@, pairs, body@));
    proof {
        let n = headers@.len() as int;
        step_views_are_of_the_steps(steps@);
        steps_in_order(url@, pairs, body@);
        length_is_stated_unless_given(url@, pairs, body@);
        assert forall|i: int| 0 <= i < n implies {
            &&& #[trigger] steps@[i] is Header
            &&& steps@[i]->Header_name@ == headers@[i].0@
            &&& steps@[i]->Header_value@ == encode_utf8(headers@[i].1@)
        } by {
            assert(step_views(steps@)[i] == (StepView::Header {
                name: pairs[i].0,
                value: encode_utf8(pairs[i].1),
            }));
        }
        assert(step_views(steps@)[n] == steps@[n]@);
        assert forall|i: int| 0 <= i < n implies pairs[i].0 == (#[trigger] headers@[i]).0@ by {}
        assert forall|i: int| 0 <= i < n implies headers@[i].0@ == (#[trigger] pairs[i]).0 by {}
    }
    steps
}

/// Whether a name is that of the header that says how long the body is.
proof fn content_length_by_characters(name: Seq<char>)
    ensures
        is_content_length(name) <==> {
            &&& name.len() == 14
            &&& forall|k: int|
                0 <= k < 14 ==> {
                    ||| #[trigger] name[k] == "content-length"@[k]
                    ||| 'a' <= "content-length"@[k] && name[k] as u32 + 32
                        == "content-length"@[k] as u32
                }
        },
{
    let own = "content-length"@;
    reveal_strlit("content-length");
    text::same_but_for_case(name, own);
    assert(forall|k: int| 0 <= k < 14 ==> #[trigger] own[k] == '-' || 'a' <= own[k] && own[k]
        <= 'z');
    if is_content_length(name) {
        assert forall|k: int| 0 <= k < 14 implies {
            ||| #[trigger] name[k] == own[k]
            ||| 'a' <= own[k] && name[k] as u32 + 32 == own[k] as u32
        } by {
            assert(own[k] == '-' || 'a' <= own[k] && own[k] <= 'z');
        }
    }
    if name.len() == 14 && forall|k: int|
        0 <= k < 14 ==> {
            ||| #[trigger] name[k] == own[k]
            ||| 'a' <= own[k] && name[k] as u32 + 32 == own[k] as u32
        } {
        assert forall|k: int| 0 <= k < name.len() implies {
            ||| #[trigger] name[k] == own[k]
            ||| 'A' <= name[k] && name[k] <= 'Z' && own[k] as u32 == name[k] as u32 + 32
            ||| 'A' <= own[k] && own[k] <= 'Z' && name[k] as u32 == own[k] as u32 + 32
        } by {
            assert(own[k] == '-' || 'a' <= own[k] && own[k] <= 'z');
        }
    }
}

/// A request states the length of its body in bytes, right after the headers of the script, exactly
/// where none of these is named `content-length`, in small letters, capitals or both.
pub proof fn length_is_stated_unless_given(
    url: Seq<char>,
    headers: Seq<(Seq<char>, Seq<char>)>,
    body: Seq<char>,
)
    ensures
        ({
            let steps = request_steps(url, headers, body);
            let at = headers.len() as int;
            let given = exists|i: int|
                0 <= i < headers.len() && (#[trigger] headers[i]).0.len() == 14 && forall|k: int|
                    0 <= k < 14 ==> {
                        ||| #[trigger] headers[i].0[k] == "content-length"@[k]
                        ||| 'a' <= "content-length"@[k] && headers[i].0[k] as u32 + 32
                            == "content-length"@[k] as u32
                    };
            if given {
                forall|i: int| 0 <= i < steps.len() ==> !(#[trigger] steps[i] is ContentLength)
            } else {
                &&& steps[at] == (StepView::ContentLength {
                    name: "content-length"@,
                    value: encode_utf8(text::decimal(encode_utf8(body).len())),
                })
                &&& forall|i: int|
                    0 <= i < steps.len() && i != at ==> !(#[trigger] steps[i] is ContentLength)
            }
        }),
{
    let steps = request_steps(url, headers, body);
    assert forall|i: int| 0 <= i < headers.len() implies (is_content_length(
        #[trigger] headers[i].0,
    ) <==> {
        &&& headers[i].0.len() == 14
        &&& forall|k: int|
            0 <= k < 14 ==> {
                ||| #[trigger] headers[i].0[k] == "content-length"@[k]
                ||| 'a' <= "content-length"@[k] && headers[i].0[k] as u32 + 32
                    == "content-length"@[k] as u32
            }
    }) by {
        content_length_by_characters(headers[i].0);
    }
    if has_content_length(headers) {
        let i = choose|i: int| 0 <= i < headers.len() && is_content_length(#[trigger] headers[i].0);
        assert(headers[i].0.len() == 14);
    } else {
        assert forall|i: int| 0 <= i < headers.len() implies !is_content_length(
            (#[trigger] headers[i]).0,
        ) by {}
    }
}

/// A request consists of the headers of the script, in their order and with their values, at most
/// one more header, then that it is opened and is a POST, and then nothing where the URL holds no
/// `://`, and three more steps where it does.
pub proof fn steps_in_order(
    url: Seq<char>,
    headers: Seq<(Seq<char>, Seq<char>)>,
    body: Seq<char>,
)
    ensures
        ({
            let steps = request_steps(url, headers, body);
            let n = headers.len() as int;
            let open = if steps[n] is ContentLength {
                n + 1
            } else {
                n
            };
            &&& forall|i: int|
                0 <= i < n ==> #[trigger] steps[i] == (StepView::Header {
                    name: headers[i].0,
                    value: encode_utf8(headers[i].1),
                })
            &&& steps[open] is Open
            &&& steps[open + 1] is Post
            &&& (forall|i: int|
                0 <= i <= url.len() - 3 ==> #[trigger] url.subrange(i, i + 3) != "://"@)
                ==> steps.len() == open + 2
            &&& (exists|i: int|
                0 <= i <= url.len() - 3 && #[trigger] url.subrange(i, i + 3) == "://"@)
                ==> steps.len() == open + 5
        }),
{
    reveal_strlit("://");
    text::split_is_around_the_first(url, "://"@);
    if let Some((name, rest)) = text::split_first(url, "://"@) {
        let at = name.len() as int;
        assert((name + "://"@ + rest).subrange(at, at + 3) =~= "://"@);
    }
}

/// A request goes where its URL says: the last steps set the scheme, HTTPS exactly where the name
/// before the first `://` is `https` in letters of either case; the authority, which is what
/// follows as far as the first slash; and the path with its query, which is all the rest, or a slash
/// where there is no rest.
pub proof fn request_goes_where_the_url_says(
    name: Seq<char>,
    authority: Seq<char>,
    rest: Seq<char>,
    headers: Seq<(Seq<char>, Seq<char>)>,
    body: Seq<char>,
)
    requires
        forall|i: int|
            0 <= i < name.len() ==> #[trigger] (name + "://"@).subrange(i, i + 3) != "://"@,
        !authority.contains('/'),
        rest.len() > 0 ==> rest[0] == '/',
    ensures
        ({
            let url = name + "://"@ + authority + rest;
            let steps = request_steps(url, headers, body);
            let last = steps.len() - 1;
            let secure = name.len() == 5 && forall|k: int|
                0 <= k < 5 ==> {
                    ||| #[trigger] name[k] == "https"@[k]
                    ||| name[k] as u32 + 32 == "https"@[k] as u32
                };
            &&& target_of(url) == Some(
                TargetView {
                    scheme: if secure {
                        Scheme::Https
                    } else {
                        Scheme::Http
                    },
                    authority,
                    path: if rest.len() > 0 {
                        rest
                    } else {
                        seq!['/']
                    },
                },
            )
            &&& last >= 4
            &&& steps[last - 2] == StepView::Scheme(
                if secure {
                    Scheme::Https
                } else {
                    Scheme::Http
                },
            )
            &&& steps[last - 1] == StepView::Authority(authority)
            &&& steps[last] == StepView::Path(
                if rest.len() > 0 {
                    rest
                } else {
                    seq!['/']
                },
            )
        }),
{
    let url = name + "://"@ + authority + rest;
    let slash = "/"@;
    let own = "https"@;
    reveal_strlit("://");
    reveal_strlit("/");
    reveal_strlit("https");
    assert(slash =~= seq!['/']);
    assert(url =~= name + "://"@ + (authority + rest));
    text::split_gives_back_the_parts(name, "://"@, authority + rest);
    assert forall|i: int| 0 <= i < authority.len() implies #[trigger] (authority
        + slash).subrange(i, i + 1) != slash by {
        if (authority + slash).subrange(i, i + 1) == slash {
            assert((authority + slash).subrange(i, i + 1)[0] == authority[i]);
            assert(authority.contains(authority[i]));
        }
    }
    if rest.len() > 0 {
        assert(authority + rest =~= authority + slash + rest.skip(1));
        text::split_gives_back_the_parts(authority, slash, rest.skip(1));
        assert(slash + rest.skip(1) =~= rest);
    } else {
        assert(authority + rest =~= authority);
        text::split_is_around_the_first(authority, slash);
        if let Some((a, b)) = text::split_first(authority, slash) {
            assert((a + slash + b)[a.len() as int] == '/');
            assert(authority.contains('/'));
        }
    }
    text::same_but_for_case(name, own);
    assert(forall|k: int| 0 <= k < 5 ==> 'a' <= #[trigger] own[k] && own[k] <= 'z');
    if scheme_of(name) is Https {
        assert forall|k: int| 0 <= k < 5 implies {
            ||| #[trigger] name[k] == own[k]
            ||| name[k] as u32 + 32 == own[k] as u32
        } by {
            assert('a' <= own[k] && own[k] <= 'z');
        }
    } else if name.len() == 5 && forall|k: int|
        0 <= k < 5 ==> {
            ||| #[trigger] name[k] == own[k]
            ||| name[k] as u32 + 32 == own[k] as u32
        } {
        assert forall|k: int| 0 <= k < name.len() implies {
            ||| #[trigger] name[k] == own[k]
            ||| 'A' <= name[k] && name[k] <= 'Z' && own[k] as u32 == name[k] as u32 + 32
            ||| 'A' <= own[k] && own[k] <= 'Z' && name[k] as u32 == own[k] as u32 + 32
        } by {
            assert('a' <= own[k] && own[k] <= 'z');
        }
    }
}

/// An internal error, with the message that the caller of the request gets.
#[derive(Debug)]
pub struct InternalError {
    pub message: Option<String>,
}

impl View for InternalError {
    type V = Option<Seq<char>>;

    open spec fn view(&self) -> Option<Seq<char>> {
        match self.message {
            Some(message) => Some(message@),
            None => None,
        }
    }
}

/// What a refused step is blamed on.
#[derive(Clone, Copy, Debug, PartialEq, Eq, Structural)]
pub enum Blame {
    Header,
    ContentLength,
    Request,
}

/// What this step is blamed on where it is refused.
pub open spec fn blame_of(step: StepView) -> Blame {
    match step {
        StepView::Header { .. } => Blame::Header,
        StepView::ContentLength { .. } => Blame::ContentLength,
        _ => Blame::Request,
    }
}

/// The message of the error that a refused step ends in: one for each kind of header, and none for
/// the rest.
pub open spec fn refusal_of(blame: Blame) -> Option<Seq<char>> {
    match blame {
        Blame::Header => Some("header error"@),
        Blame::ContentLength => Some("content-length header error"@),
        Blame::Request => None,
    }
}

/// The error that a refused step ends in.
pub fn refusal(blame: Blame) -> (error: InternalError)
    ensures
        error@ == refusal_of(blame),
        error.message is None <==> blame is Request,
        blame is Header ==> error.message->Some_0@ == "header error"@,
        blame is ContentLength ==> error.message->Some_0@ == "content-length header error"@,
{
    let message: Option<String> = match blame {
        Blame::Header => Some("header error".to_owned()),
        Blame::ContentLength => Some("content-length header error".to_owned()),
        Blame::Request => None,
    };
    InternalError { message }
}

/// How far the building of a request is.
#[derive(Clone, Copy, Debug, PartialEq, Eq, Structural)]
pub enum Stage {
    /// No step is under way.
    Ready,
    /// A step is under way, to be blamed so where it is refused.
    Waiting(Blame),
    /// A step was refused.
    Refused(Blame),
}

/// What is to be done next.
#[derive(Debug)]
pub enum Progress {
    /// This step.
    Perform(Step),
    /// Nothing more: give up with this error.
    Refuse(InternalError),
    /// Send the request with these bytes as its body: every step was accepted.
    Send(Vec<u8>),
}

/// What is to be done next, in terms of characters and bytes.
pub enum ProgressView {
    Perform(StepView),
    Refuse(Option<Seq<char>>),
    Send(Seq<u8>),
}

impl View for Progress {
    type V = ProgressView;

    open spec fn view(&self) -> ProgressView {
        match self {
            Progress::Perform(step) => ProgressView::Perform(step@),
            Progress::Refuse(error) => ProgressView::Refuse(error@),
            Progress::Send(body) => ProgressView::Send(body@),
        }
    }
}

/// What is to be done next is the same in terms of characters and bytes.
pub proof fn progress_view_is_of_the_progress(progress: Progress)
    ensures
        match progress {
            Progress::Perform(step) => progress@ == ProgressView::Perform(
                step_views(seq![step])[0],
            ),
            Progress::Refuse(error) => progress@ is Refuse && (progress@->Refuse_0 is Some
                <==> error.message is Some) && (error.message matches Some(message)
                ==> progress@->Refuse_0 == Some(message@)),
            Progress::Send(body) => progress@ == ProgressView::Send(body@),
        },
{
}

/// The state of a request that is being built: the steps that are left, the stage, and the body.
#[verifier::ext_equal]
pub struct PlanView {
    pub left: Seq<StepView>,
    pub stage: Stage,
    pub body: Seq<char>,
}

impl PlanView {
    /// At the start of these steps, for a request with this body.
    pub open spec fn start(steps: Seq<StepView>, body: Seq<char>) -> Self {
        PlanView { left: steps, stage: Stage::Ready, body }
    }

    /// Whether the answer to the step under way, or to an earlier one, was a refusal, and what is
    /// to be blamed.
    pub open spec fn blamed(self, accepted: bool) -> Option<Blame> {
        match self.stage {
            Stage::Refused(blame) => Some(blame),
            Stage::Waiting(blame) => if accepted {
                None
            } else {
                Some(blame)
            },
            Stage::Ready => None,
        }
    }

    /// The state after the answer to the step under way.
    pub open spec fn advanced(self, accepted: bool) -> Self {
        match self.blamed(accepted) {
            Some(blame) => PlanView { stage: Stage::Refused(blame), ..self },
            None => if self.left.len() > 0 {
                PlanView {
                    left: self.left.drop_first(),
                    stage: Stage::Waiting(blame_of(self.left.first())),
                    body: self.body,
                }
            } else {
                PlanView { stage: Stage::Ready, ..self }
            },
        }
    }

    /// What is to be done after the answer to the step under way.
    pub open spec fn progress(self, accepted: bool) -> ProgressView {
        match self.blamed(accepted) {
            Some(blame) => ProgressView::Refuse(refusal_of(blame)),
            None => if self.left.len() > 0 {
                ProgressView::Perform(self.left.first())
            } else {
                ProgressView::Send(encode_utf8(self.body))
            },
        }
    }
}

/// The headers that a JSON text stands for: none where it is not an object of strings.
pub open spec fn headers_of(headers_json: Seq<char>) -> Map<Seq<char>, Seq<char>> {
    match json::json_string_map(headers_json) {
        Some(map) => map,
        None => Map::empty(),
    }
}

/// `plan` is at the start of the request with these headers, in some order.
pub open spec fn plans(
    plan: PlanView,
    url: Seq<char>,
    headers: Map<Seq<char>, Seq<char>>,
    body: Seq<char>,
) -> bool {
    exists|pairs: Seq<(Seq<char>, Seq<char>)>| #[trigger]
        json::lists(pairs, headers) && plan == PlanView::start(request_steps(url, pairs, body), body)
}

/// A request that is being built.
pub struct Plan {
    left: VecDeque<Step>,
    stage: Stage,
    body: String,
}

impl View for Plan {
    type V = PlanView;

    closed spec fn view(&self) -> PlanView {
        PlanView { left: step_views(self.left@), stage: self.stage, body: self.body@ }
    }
}

impl Plan {
    /// Plans a request with these headers, in this order.
    pub fn with_headers(url: &str, headers: &Vec<(String, String)>, body: &str) -> (plan: Self)
        ensures
            plan@ == PlanView::start(
                request_steps(url@, json::pair_views(headers@), body@),
                body@,
            ),
            plan@.left == request_steps(url@, json::pair_views(headers@), body@),
            plan@.stage is Ready,
            plan@.body == body@,
    {
        Plan {
            left: plan_steps(url, headers, body),
            stage: Stage::Ready,
            body: body.to_owned(),
        }
    }

    /// Plans a request whose headers are given as a JSON object of strings. A text that is no such
    /// object stands for no headers. The order of the headers is left open.
    pub fn new(url: &str, headers_json: &str, body: &str) -> (plan: Self)
        ensures
            plans(plan@, url@, headers_of(headers_json@), body@),
            forall|members: Seq<(Seq<char>, Seq<char>)>|
                headers_json@ == #[trigger] json::string_object(members) ==> plans(
                    plan@,
                    url@,
                    json::member_map(members),
                    body@,
                ),
            plan@.stage is Ready,
            plan@.body == body@,
            json::json_string_map(headers_json@) is None ==> plan@.left == request_steps(
                url@,
                seq![],
                body@,
            ),
            json::json_string_map(headers_json@) matches Some(map) ==> exists|
                pairs: Seq<(Seq<char>, Seq<char>)>,
            | #[trigger]
                json::lists(pairs, map) && plan@.left == request_steps(url@, pairs, body@),
            forall|members: Seq<(Seq<char>, Seq<char>)>|
                headers_json@ == #[trigger] json::string_object(members) ==> exists|
                    pairs: Seq<(Seq<char>, Seq<char>)>,
                | #[trigger]
                    json::lists(pairs, json::member_map(members)) && plan@.left == request_steps(
                        url@,
                        pairs,
                        body@,
                    ),
    {
        let headers: Vec<(String, String)> = match json::parse_string_map(headers_json) {
            Ok(pairs) => pairs,
            Err(_) => {
                let none: Vec<(String, String)> = Vec::new();
                assert(json::pair_views(none@) =~= seq![]);
                assert(json::lists(json::pair_views(none@), Map::empty()));
                none
            },
        };
        assert(json::lists(json::pair_views(headers@), headers_of(headers_json@)));
        Plan::with_headers(url, &headers, body)
    }

    /// Takes the answer to the step under way and says what is to be done next. The first call,
    /// with no step under way, may give either answer.
    pub fn advance(&mut self, accepted: bool) -> (progress: Progress)
        ensures
            final(self)@ == old(self)@.advanced(accepted),
            progress@ == old(self)@.progress(accepted),
            final(self)@.body == old(self)@.body,
            progress matches Progress::Perform(step) ==> old(self)@.left.len() > 0 && step@
                == old(self)@.left.first() && final(self)@.left == old(self)@.left.drop_first(),
            progress matches Progress::Send(bytes) ==> old(self)@.left.len() == 0 && bytes@
                == encode_utf8(old(self)@.body),
            !(progress is Perform) ==> final(self)@.left == old(self)@.left,
    {
        let blamed: Option<Blame> = match self.stage {
            Stage::Refused(blame) => Some(blame),
            Stage::Waiting(blame) => if accepted {
                None
            } else {
                Some(blame)
            },
            Stage::Ready => None,
        };
        match blamed {
            Some(blame) => {
                self.stage = Stage::Refused(blame);
                Progress::Refuse(refusal(blame))
            },
            None => match self.left.pop_front() {
                Some(step) => {
                    let blame: Blame = match &step {
                        Step::Header { .. } => Blame::Header,
                        Step::ContentLength { .. } => Blame::ContentLength,
                        _ => Blame::Request,
                    };
                    self.stage = Stage::Waiting(blame);
                    assert(self@.left =~= old(self)@.left.drop_first());
                    Progress::Perform(step)
                },
                None => {
                    self.stage = Stage::Ready;
                    assert(self@.left =~= old(self)@.left);
                    Progress::Send(self.body.as_str().as_bytes_vec())
                },
            },
        }
    }
}

/// The error that a response with this status ends in; none for 200.
pub open spec fn status_error(status: u16) -> Option<Seq<char>> {
    if status == 200 {
        None
    } else {
        Some("status "@ + text::decimal(status as nat))
    }
}

/// Decides on the status of a response: the body of one with status 200 is read; any other ends in
/// an error that names the status.
pub fn check_status(status: u16) -> (outcome: Result<(), InternalError>)
    ensures
        match outcome {
            Ok(_) => status_error(status) is None,
            Err(error) => status_error(status) is Some && error@ == status_error(status),
        },
        outcome is Ok <==> status == 200,
        status != 200 ==> outcome->Err_0.message is Some && outcome->Err_0.message->Some_0@
            == "status "@ + text::decimal(status as nat),
{
    if status == 200 {
        Ok(())
    } else {
        let number: String = text::decimal_text(status as u64);
        Err(InternalError { message: Some("status ".to_owned().concat(number.as_str())) })
    }
}

/// Only 200 is accepted: every other status is an error, which names the status, so that different
/// statuses give different errors.
pub proof fn only_200_is_accepted(status: u16, other: u16)
    ensures
        status_error(status) is None <==> status == 200,
        status != 200 ==> status_error(status) == Some("status "@ + text::decimal(status as nat)),
        status_error(status) == status_error(other) <==> status == other,
{
    if status_error(status) == status_error(other) && status != 200 {
        let head = "status "@;
        let a = text::decimal(status as nat);
        let b = text::decimal(other as nat);
        assert(a =~= (head + a).skip(head.len() as int));
        assert(b =~= (head + b).skip(head.len() as int));
        text::decimal_is_unambiguous(status as nat, other as nat);
    }
}

/// Nothing of a URL is lost: scheme name, `://`, authority and path, one after the other, are the
/// URL, to which a slash is added where none comes after `://`. The authority holds no slash and
/// the path begins with one.
pub proof fn target_keeps_the_url(url: Seq<char>)
    ensures
        match target_of(url) {
            Some(target) => {
                let name = text::split_first(url, "://"@)->Some_0.0;
                let whole = name + "://"@ + target.authority + target.path;
                &&& target.scheme == scheme_of(name)
                &&& whole == url || whole == url.push('/')
                &&& !target.authority.contains('/')
                &&& target.path.len() > 0 && target.path[0] == '/'
                &&& whole == url.push('/') ==> target.path == seq!['/']
            },
            None => forall|i: int| !#[trigger] text::occurs_at(url, "://"@, i),
        },
{
    reveal_strlit("://");
    reveal_strlit("/");
    text::find_from_is_first(url, "://"@, 0);
    assert("/"@ =~= seq!['/']);
    match text::split_first(url, "://"@) {
        None => {},
        Some((name, rest)) => {
            let at = name.len() as int;
            assert(url =~= url.take(at) + url.subrange(at, at + 3) + url.skip(at + 3));
            assert(url == name + "://"@ + rest);
            text::find_from_is_first(rest, "/"@, 0);
            match text::split_first(rest, "/"@) {
                None => {
                    assert(!rest.contains('/')) by {
                        if rest.contains('/') {
                            let i = choose|i: int| 0 <= i < rest.len() && rest[i] == '/';
                            assert(rest.subrange(i, i + 1) =~= "/"@);
                            assert(text::occurs_at(rest, "/"@, i));
                        }
                    }
                    assert(name + "://"@ + rest + "/"@ =~= url.push('/'));
                },
                Some((authority, path)) => {
                    let slash = authority.len() as int;
                    assert(rest =~= rest.take(slash) + rest.subrange(slash, slash + 1) + rest.skip(
                        slash + 1,
                    ));
                    assert(!authority.contains('/')) by {
                        if authority.contains('/') {
                            let i = choose|i: int|
                                0 <= i < authority.len() && authority[i] == '/';
                            assert(rest.subrange(i, i + 1) =~= "/"@);
                            assert(text::occurs_at(rest, "/"@, i));
                        }
                    }
                    let whole = name + "://"@ + authority + ("/"@ + path);
                    assert(whole =~= url);
                    assert(whole.len() != url.push('/').len());
                },
            }
        },
    }
}

/// Every request says how long its body is: among its steps is a header that does, and where the
/// script gave none, it is the length of the body in bytes.
pub proof fn every_request_has_a_length(
    url: Seq<char>,
    headers: Seq<(Seq<char>, Seq<char>)>,
    body: Seq<char>,
)
    ensures
        exists|i: int|
            0 <= i < request_steps(url, headers, body).len() && match #[trigger] request_steps(
                url,
                headers,
                body,
            )[i] {
                StepView::Header { name, .. } => is_content_length(name),
                StepView::ContentLength { name, value } => is_content_length(name) && value
                    == length_value(body) && !has_content_length(headers),
                _ => false,
            },
{
    let steps = request_steps(url, headers, body);
    if has_content_length(headers) {
        let i = choose|i: int| 0 <= i < headers.len() && is_content_length(#[trigger] headers[i].0);
        assert(steps[i] == header_step(headers[i]));
    } else {
        assert(is_content_length("content-length"@));
        assert(steps[headers.len() as int] == StepView::ContentLength {
            name: "content-length"@,
            value: length_value(body),
        });
    }
}

impl PlanView {
    /// The state after these answers, in this order.
    pub open spec fn after(self, answers: Seq<bool>) -> Self
        decreases answers.len(),
    {
        if answers.len() == 0 {
            self
        } else {
            self.after(answers.drop_last()).advanced(answers.last())
        }
    }

    /// What is to be done after the last of these answers.
    pub open spec fn progress_after(self, answers: Seq<bool>) -> ProgressView
        recommends
            answers.len() > 0,
    {
        self.after(answers.drop_last()).progress(answers.last())
    }
}

proof fn plan_after_accepted(steps: Seq<StepView>, body: Seq<char>, answers: Seq<bool>)
    requires
        answers.len() <= steps.len(),
        forall|i: int| 0 < i < answers.len() ==> #[trigger] answers[i],
    ensures
        PlanView::start(steps, body).after(answers).left == steps.skip(answers.len() as int),
        PlanView::start(steps, body).after(answers).body == body,
        PlanView::start(steps, body).after(answers).stage == if answers.len() == 0 {
            Stage::Ready
        } else {
            Stage::Waiting(blame_of(steps[answers.len() - 1]))
        },
    decreases answers.len(),
{
    if answers.len() == 0 {
        assert(steps.skip(0) =~= steps);
    } else {
        let earlier = answers.drop_last();
        assert forall|i: int| 0 < i < earlier.len() implies #[trigger] earlier[i] by {
            assert(earlier[i] == answers[i]);
        }
        plan_after_accepted(steps, body, earlier);
        assert(answers.len() > 1 ==> answers[answers.len() - 1]);
        assert(steps.skip(earlier.len() as int).drop_first() =~= steps.skip(answers.len() as int));
    }
}

/// The steps are performed one after the other, in order, each once and none left out, as long as
/// each is accepted, and the request is sent, with its body, when all of them were, and not before.
pub proof fn accepted_steps_lead_to_the_request(
    steps: Seq<StepView>,
    body: Seq<char>,
    answers: Seq<bool>,
)
    requires
        0 < answers.len() <= steps.len() + 1,
        forall|i: int| 0 < i < answers.len() ==> #[trigger] answers[i],
    ensures
        PlanView::start(steps, body).progress_after(answers) == if answers.len() <= steps.len() {
            ProgressView::Perform(steps[answers.len() - 1])
        } else {
            ProgressView::Send(encode_utf8(body))
        },
{
    let earlier = answers.drop_last();
    assert forall|i: int| 0 < i < earlier.len() implies #[trigger] earlier[i] by {
        assert(earlier[i] == answers[i]);
    }
    plan_after_accepted(steps, body, earlier);
    assert(answers.len() > 1 ==> answers[answers.len() - 1]);
}

/// The length that a request states is that of the bytes that are sent, where the script gave none
/// of its own.
pub proof fn stated_length_is_that_of_the_bytes(
    url: Seq<char>,
    headers: Seq<(Seq<char>, Seq<char>)>,
    body: Seq<char>,
    answers: Seq<bool>,
)
    requires
        !has_content_length(headers),
        answers.len() == request_steps(url, headers, body).len() + 1,
        forall|i: int| 0 < i < answers.len() ==> #[trigger] answers[i],
    ensures
        match PlanView::start(request_steps(url, headers, body), body).progress_after(answers) {
            ProgressView::Send(bytes) => request_steps(url, headers, body).contains(
                StepView::ContentLength {
                    name: "content-length"@,
                    value: encode_utf8(text::decimal(bytes.len())),
                },
            ),
            _ => false,
        },
{
    let steps = request_steps(url, headers, body);
    accepted_steps_lead_to_the_request(steps, body, answers);
    assert(steps[headers.len() as int] == StepView::ContentLength {
        name: "content-length"@,
        value: length_value(body),
    });
}

/// The first refusal is the end: whatever is answered later, no step follows it, the request is
/// not sent, and the error is that of the step that was refused.
pub proof fn refused_step_ends_the_request(
    steps: Seq<StepView>,
    body: Seq<char>,
    answers: Seq<bool>,
    at: int,
)
    requires
        0 < at <= steps.len(),
        at < answers.len(),
        !answers[at],
        forall|i: int| 0 < i < at ==> #[trigger] answers[i],
    ensures
        PlanView::start(steps, body).progress_after(answers) == ProgressView::Refuse(
            refusal_of(blame_of(steps[at - 1])),
        ),
        PlanView::start(steps, body).progress_after(answers) == ProgressView::Refuse(
            match steps[at - 1] {
                StepView::Header { .. } => Some("header error"@),
                StepView::ContentLength { .. } => Some("content-length header error"@),
                _ => None,
            },
        ),
        PlanView::start(steps, body).after(answers).stage == Stage::Refused(blame_of(steps[at - 1])),
    decreases answers.len(),
{
    let earlier = answers.drop_last();
    if at == answers.len() - 1 {
        assert forall|i: int| 0 < i < earlier.len() implies #[trigger] earlier[i] by {
            assert(earlier[i] == answers[i]);
        }
        plan_after_accepted(steps, body, earlier);
    } else {
        assert forall|i: int| 0 < i < at implies #[trigger] earlier[i] by {
            assert(earlier[i] == answers[i]);
        }
        assert(!earlier[at]);
        refused_step_ends_the_request(steps, body, earlier, at);
    }
}

} // verus!
