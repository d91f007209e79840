//! The request encoder: assembles a complete outbound request from typed
//! fields, with a deterministically ordered query string.

use vstd::prelude::*;
use vstd::string::StringExecFns;

use crate::bounded::{dec_str, BoundedInteger};
use crate::codec::{parse_filter, ser_filter, serialize};
use crate::errors::EncodingError;
use crate::filter::{default_filter, Filter, FilterView};
use crate::text::{chars_to_string, push_str};

verus! {

/// The direction in which events are paginated.
#[derive(Debug, Clone, Copy, PartialEq, Eq, Structural)]
pub enum Direction {
    Forward,
    Backward,
}

/// The single-letter wire token of a direction.
pub open spec fn dir_text(d: Direction) -> Seq<char> {
    match d {
        Direction::Forward => "f"@,
        Direction::Backward => "b"@,
    }
}

/// An outbound request: consumed exactly once by the encoder.
pub struct Request {
    pub room_id: String,
    pub from: String,
    pub to: Option<String>,
    pub dir: Direction,
    pub limit: Option<BoundedInteger>,
    pub filter: Option<Filter>,
}

/// The mathematical shape of a request.
pub ghost struct RequestView {
    pub room_id: Seq<char>,
    pub from: Seq<char>,
    pub to: Option<Seq<char>>,
    pub dir: Direction,
    pub limit: Option<u64>,
    pub filter: Option<FilterView>,
}

impl View for Request {
    type V = RequestView;

    open spec fn view(&self) -> RequestView {
        RequestView {
            room_id: self.room_id@,
            from: self.from@,
            to: match self.to {
                Option::Some(t) => Option::Some(t@),
                Option::None => Option::None,
            },
            dir: self.dir,
            limit: match self.limit {
                Option::Some(n) => Option::Some(n.spec_value()),
                Option::None => Option::None,
            },
            filter: match self.filter {
                Option::Some(f) => Option::Some(f@),
                Option::None => Option::None,
            },
        }
    }
}

/// The optional `to` query parameter.
pub open spec fn to_param(r: RequestView) -> Seq<(Seq<char>, Seq<char>)> {
    match r.to {
        Option::Some(t) => seq![("to"@, t)],
        Option::None => Seq::empty(),
    }
}

/// The optional `limit` query parameter, in plain decimal text.
pub open spec fn limit_param(r: RequestView) -> Seq<(Seq<char>, Seq<char>)> {
    match r.limit {
        Option::Some(n) => seq![("limit"@, dec_str(n as nat))],
        Option::None => Seq::empty(),
    }
}

/// The optional `filter` query parameter: the serialized filter, present
/// exactly when the request carries a filter — also when that filter is the
/// all-default value.
pub open spec fn filter_param(r: RequestView) -> Seq<(Seq<char>, Seq<char>)> {
    match r.filter {
        Option::Some(f) => seq![("filter"@, ser_filter(f))],
        Option::None => Seq::empty(),
    }
}

/// The key/value pairs of the query string, in fixed order: `from`, `to`,
/// `dir`, `limit`, `filter`, the optional ones present exactly when their
/// field is.
pub open spec fn query_params(r: RequestView) -> Seq<(Seq<char>, Seq<char>)> {
    seq![("from"@, r.from)] + to_param(r) + seq![("dir"@, dir_text(r.dir))] + limit_param(r)
        + filter_param(r)
}

/// One rendered query parameter.
pub open spec fn render_param(p: (Seq<char>, Seq<char>)) -> Seq<char> {
    p.0 + seq!['='] + p.1
}

/// Rendered query parameters, each behind its separating ampersand.
pub open spec fn render_params_after(ps: Seq<(Seq<char>, Seq<char>)>) -> Seq<char>
    decreases ps.len(),
{
    if ps.len() == 0 {
        Seq::empty()
    } else {
        seq!['&'] + render_param(ps[0]) + render_params_after(ps.drop_first())
    }
}

/// The whole query string: the `from` parameter, then the remaining
/// parameters each behind an ampersand.
pub open spec fn query_of(r: RequestView) -> Seq<char> {
    render_param(("from"@, r.from)) + render_params_after(
        to_param(r) + seq![("dir"@, dir_text(r.dir))] + limit_param(r) + filter_param(r),
    )
}

/// The resource path the request goes to, built from the room identifier.
pub open spec fn path_of(room_id: Seq<char>) -> Seq<char> {
    "/_matrix/client/r0/rooms/"@ + room_id + "/messages"@
}

/// A wire request: produced once, then handed to the transport.
#[derive(Debug, Clone)]
pub struct EncodedRequest {
    pub method: String,
    pub path: String,
    pub query: String,
}

/// Rendering distributes over splitting the parameter list.
pub proof fn lemma_render_params_split(
    a: Seq<(Seq<char>, Seq<char>)>,
    b: Seq<(Seq<char>, Seq<char>)>,
)
    ensures
        render_params_after(a + b) == render_params_after(a) + render_params_after(b),
    decreases a.len(),
{
    if a.len() == 0 {
        assert(a + b =~= b);
        assert(render_params_after(a) + render_params_after(b) =~= render_params_after(b));
    } else {
        lemma_render_params_split(a.drop_first(), b);
        assert((a + b).drop_first() =~= a.drop_first() + b);
        assert(seq!['&'] + render_param(a[0]) + (render_params_after(a.drop_first())
            + render_params_after(b)) =~= (seq!['&'] + render_param(a[0]) + render_params_after(
            a.drop_first(),
        )) + render_params_after(b));
    }
}

/// The rendering of a single parameter behind its ampersand.
pub proof fn lemma_render_params_single(p: (Seq<char>, Seq<char>))
    ensures
        render_params_after(seq![p]) == seq!['&'] + render_param(p),
{
    assert(seq![p].drop_first() =~= Seq::<(Seq<char>, Seq<char>)>::empty());
    assert(seq!['&'] + render_param(p) + render_params_after(
        Seq::<(Seq<char>, Seq<char>)>::empty(),
    ) =~= seq!['&'] + render_param(p));
}

/// Encodes a request as a wire request: a fixed method, a path built from the
/// room identifier, and the deterministically ordered query string. If the
/// filter failed to serialize the encoder would fail with an `EncodingError`
/// wrapping that failure and return no request; filter serialization is total,
/// so every request encodes.
#[verifier::rlimit(100)]
pub fn encode_request(req: Request) -> (r: Result<EncodedRequest, EncodingError>)
    ensures
        r matches Ok(e) && e.method@ == "GET"@ && e.path@ == path_of(req.room_id@) && e.query@
            == query_of(req@),
{
    let ghost rv = req@;
    let mut out: Vec<char> = Vec::new();
    push_str(&mut out, "from=");
    push_str(&mut out, req.from.as_str());
    proof {
        reveal_strlit("from=");
        reveal_strlit("from");
        assert("from="@ =~= "from"@ + seq!['=']);
        assert(out@ =~= render_param(("from"@, rv.from)));
    }
    match &req.to {
        Some(t) => {
            push_str(&mut out, "&to=");
            push_str(&mut out, t.as_str());
            proof {
                reveal_strlit("&to=");
                reveal_strlit("to");
                lemma_render_params_single(("to"@, t@));
                assert("&to="@ + t@ =~= seq!['&'] + render_param(("to"@, t@)));
                assert(out@ =~= render_param(("from"@, rv.from)) + render_params_after(
                    to_param(rv),
                ));
            }
        },
        None => {
            proof {
                assert(out@ =~= render_param(("from"@, rv.from)) + render_params_after(
                    to_param(rv),
                ));
            }
        },
    }
    match req.dir {
        Direction::Forward => {
            push_str(&mut out, "&dir=f");
            proof {
                reveal_strlit("&dir=f");
                reveal_strlit("dir");
                reveal_strlit("f");
                lemma_render_params_single(("dir"@, dir_text(rv.dir)));
                assert("&dir=f"@ =~= seq!['&'] + render_param(("dir"@, dir_text(rv.dir))));
            }
        },
        Direction::Backward => {
            push_str(&mut out, "&dir=b");
            proof {
                reveal_strlit("&dir=b");
                reveal_strlit("dir");
                reveal_strlit("b");
                lemma_render_params_single(("dir"@, dir_text(rv.dir)));
                assert("&dir=b"@ =~= seq!['&'] + render_param(("dir"@, dir_text(rv.dir))));
            }
        },
    }
    proof {
        lemma_render_params_split(to_param(rv), seq![("dir"@, dir_text(rv.dir))]);
        assert(out@ =~= render_param(("from"@, rv.from)) + render_params_after(
            to_param(rv) + seq![("dir"@, dir_text(rv.dir))],
        ));
    }
    let ghost done2 = to_param(rv) + seq![("dir"@, dir_text(rv.dir))];
    match &req.limit {
        Some(n) => {
            push_str(&mut out, "&limit=");
            let ds = n.to_decimal_string();
            push_str(&mut out, ds.as_str());
            proof {
                reveal_strlit("&limit=");
                reveal_strlit("limit");
                lemma_render_params_single(("limit"@, dec_str(n.spec_value() as nat)));
                assert("&limit="@ + ds@ =~= seq!['&'] + render_param(
                    ("limit"@, dec_str(n.spec_value() as nat)),
                ));
                assert(out@ =~= render_param(("from"@, rv.from)) + render_params_after(done2)
                    + render_params_after(limit_param(rv)));
            }
        },
        None => {
            proof {
                assert(out@ =~= render_param(("from"@, rv.from)) + render_params_after(done2)
                    + render_params_after(limit_param(rv)));
            }
        },
    }
    proof {
        lemma_render_params_split(done2, limit_param(rv));
        assert(out@ =~= render_param(("from"@, rv.from)) + render_params_after(
            done2 + limit_param(rv),
        ));
    }
    let ghost done3 = done2 + limit_param(rv);
    match &req.filter {
        Some(fl) => {
            match serialize(fl) {
                Ok(js) => {
                    push_str(&mut out, "&filter=");
                    push_str(&mut out, js.as_str());
                    proof {
                        reveal_strlit("&filter=");
                        reveal_strlit("filter");
                        lemma_render_params_single(("filter"@, ser_filter(fl@)));
                        assert("&filter="@ + js@ =~= seq!['&'] + render_param(
                            ("filter"@, ser_filter(fl@)),
                        ));
                        assert(out@ =~= render_param(("from"@, rv.from)) + render_params_after(
                            done3,
                        ) + render_params_after(filter_param(rv)));
                    }
                },
                Err(e) => {
                    return Err(EncodingError::Serialization(e));
                },
            }
        },
        None => {
            proof {
                assert(out@ =~= render_param(("from"@, rv.from)) + render_params_after(done3)
                    + render_params_after(filter_param(rv)));
            }
        },
    }
    proof {
        lemma_render_params_split(done3, filter_param(rv));
        assert(done3 + filter_param(rv) =~~= to_param(rv) + seq![("dir"@, dir_text(rv.dir))]
            + limit_param(rv) + filter_param(rv));
        assert(out@ =~= query_of(rv));
    }
    let mut path = String::from_str("/_matrix/client/r0/rooms/");
    path.append(req.room_id.as_str());
    path.append("/messages");
    proof {
        assert(path@ =~= path_of(rv.room_id));
    }
    Ok(
        EncodedRequest {
            method: String::from_str("GET"),
            path,
            query: chars_to_string(&out),
        },
    )
}

/// A request without a filter encodes with no `filter` query parameter at
/// all: no key of any parameter is `filter`.
pub proof fn lemma_absent_filter_omitted(r: RequestView)
    requires
        r.filter is None,
    ensures
        forall|i: int|
            0 <= i < query_params(r).len() ==> (#[trigger] query_params(r)[i]).0 != "filter"@,
{
    reveal_strlit("from");
    reveal_strlit("to");
    reveal_strlit("dir");
    reveal_strlit("limit");
    reveal_strlit("filter");
    let ps = query_params(r);
    assert(filter_param(r) =~= Seq::<(Seq<char>, Seq<char>)>::empty());
    assert forall|i: int| 0 <= i < ps.len() implies (#[trigger] ps[i]).0 != "filter"@ by {
        assert(ps[i].0 == "from"@ || ps[i].0 == "to"@ || ps[i].0 == "dir"@ || ps[i].0
            == "limit"@) by {
            assert(ps =~= seq![("from"@, r.from)] + to_param(r) + seq![("dir"@, dir_text(r.dir))]
                + limit_param(r));
        }
        assert("from"@.len() == 4 && "to"@.len() == 2 && "dir"@.len() == 3 && "limit"@.len() == 5
            && "filter"@.len() == 6);
    }
}

/// A request with a filter — the all-default filter included — encodes with a
/// `filter` parameter standing last, whose value is the serialized filter and
/// decodes back to that very filter: default-valued presence is never elided.
pub proof fn lemma_present_filter_kept(r: RequestView)
    requires
        r.filter is Some,
    ensures
        query_params(r).last() == ("filter"@, ser_filter(r.filter->Some_0)),
        parse_filter(query_params(r).last().1) == Option::Some(r.filter->Some_0),
{
    let f = r.filter->Some_0;
    let ps = query_params(r);
    assert(filter_param(r) =~= seq![("filter"@, ser_filter(f))]);
    assert(ps.last() == ("filter"@, ser_filter(f)));
    crate::codec::lemma_filter_round_trip(f);
}

/// The all-default filter in particular is never elided: the request still
/// carries a `filter` parameter, and it decodes to the all-default filter.
pub proof fn lemma_default_filter_kept(r: RequestView)
    requires
        r.filter == Option::Some(default_filter()),
    ensures
        query_params(r).last() == ("filter"@, ser_filter(default_filter())),
        parse_filter(query_params(r).last().1) == Option::Some(default_filter()),
{
    lemma_present_filter_kept(r);
}

} // verus!
