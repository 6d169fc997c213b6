//! The synthesis mechanism's decision logic: which fragments count as
//! learned, which artifact to re-orient on, how access counts are normalized,
//! and which fragments are grown into a new artifact. Log-likelihoods are
//! carried as fixed-point millionths in `i64`, `None` standing for a
//! non-finite value.

use vstd::prelude::*;
use vstd::string::StringExecFns;
use vstd::string::StrSliceExecFns;
use vstd::multiset::Multiset;
use crate::knowledge::Network;
use crate::knowledge::Context;
use crate::idvec::id_set;
use crate::knowledge::lemma_valid_for_extends;
use crate::model::lemma_extends_refl;
use crate::model::lemma_extends_trans;

verus! {

/// Scale factor for normalized access counts.
pub const EC_ACCESS_FACTOR: u64 = 400;

/// At most this many fragments go into one new artifact.
pub const EC_MAX_IN_ARTIFACT: usize = 20;

/// Magnitude bound on the fixed-point log-likelihoods the mechanism accepts.
pub const LL_BOUND: i64 = 1_000_000_000_000_000;

/// A grammar entry of a synthesis result.
pub struct Comb {
    pub expr: String,
    pub log_likelihood: Option<i64>,
}

/// The solution the synthesis engine found for one task, if any.
pub struct TaskResult {
    pub expr: String,
    pub log_probability: Option<i64>,
}

/// One task of a synthesis result.
pub struct Task {
    pub task: String,
    pub result: Option<TaskResult>,
}

/// A synthesis result document.
pub struct Results {
    pub grammar: Vec<Comb>,
    pub programs: Vec<Task>,
    pub hit_rate: u64,
    pub log_bic: Option<i64>,
}

impl Comb {
    pub open spec fn wf(self) -> bool {
        match self.log_likelihood {
            Some(v) => -LL_BOUND <= v <= LL_BOUND,
            None => true,
        }
    }
}

impl Results {
    pub open spec fn wf(self) -> bool {
        forall|k: int| 0 <= k < self.grammar@.len() ==> (#[trigger] self.grammar@[k]).wf()
    }
}

/// Why the mechanism failed.
#[derive(Debug, Clone, Copy, PartialEq, Eq, Structural)]
pub enum EcError {
    /// An artifact payload did not parse as a JSON list of strings.
    BadPayload,
    /// The network refused to grow because it is full.
    NetworkFull,
}

/// What a string parses to as a JSON list of strings, if anything. Whether
/// and how it parses depends on the text alone.
pub uninterp spec fn json_string_list(s: Seq<char>) -> Option<Seq<Seq<char>>>;

/// The JSON rendering of a list of strings; it depends on the strings alone.
pub uninterp spec fn json_of_string_list(l: Seq<Seq<char>>) -> Seq<char>;

/// Relies on serde_json's `from_str` for `Vec<String>`: parsing is a function
/// of the text alone; a failure is reported as an error value.
#[verifier::external_body]
fn parse_string_list(s: &String) -> (r: Option<Vec<String>>)
    ensures
        (r is Some) == (json_string_list(s@) is Some),
        r matches Some(v) ==> Some(v@.map_values(|t: String| t@)) == json_string_list(s@),
{
    match serde_json::from_str::<Vec<String>>(s) {
        Ok(v) => Some(v),
        Err(_) => None,
    }
}

/// Relies on serde_json's `to_string` for `Vec<String>`, which cannot fail
/// for this type: the rendering is a function of the strings alone.
#[verifier::external_body]
fn render_string_list(v: &Vec<String>) -> (r: String)
    ensures
        r@ == json_of_string_list(v@.map_values(|t: String| t@)),
{
    match serde_json::to_string(v) {
        Ok(s) => s,
        Err(_) => String::new(),
    }
}

/// The embryo built from the curriculum's embryo document: one `ec`-tagged
/// artifact carrying the document as its payload.
pub fn embryo(data: String) -> (r: Vec<(String, String)>)
    ensures
        r@.len() == 1,
        r@[0].0@ == ec_tag(),
        r@[0].1@ == data@,
{
    let mut r: Vec<(String, String)> = Vec::new();
    r.push((String::from_str("ec"), data));
    r
}

/// The expressions the synthesis engine already knows: never learned, never
/// grown.
pub open spec fn spec_primitives() -> Seq<Seq<char>> {
    seq![
        "B"@,
        "C"@,
        "S"@,
        "K"@,
        "I"@,
        "is"@,
        "empty"@,
        "upper"@,
        "lower"@,
        "cap"@,
        "+"@,
        "0"@,
        "+1"@,
        "-1"@,
        "wc"@,
        "cc"@,
        "string-of-int"@,
        "findchar"@,
        "<SPACE>"@,
        "<COMMA>"@,
        "<DOT>"@,
        "<AT>"@,
        "<LESS-THAN>"@,
        "<GREATER-THAN>"@,
        "string-of-char"@,
        "substr"@,
        "replace"@,
        "replace-substr-first"@,
        "replace-substr-all"@,
        "nth"@,
        "fnth"@,
        "feach"@,
    ]
}

pub open spec fn is_primitive(e: Seq<char>) -> bool {
    spec_primitives().contains(e)
}

/// The primitive expressions, as strings.
pub fn primitives() -> (r: Vec<String>)
    ensures
        r@.map_values(|s: String| s@) == spec_primitives(),
{
    let mut r: Vec<String> = Vec::new();
    r.push(String::from_str("B"));
    r.push(String::from_str("C"));
    r.push(String::from_str("S"));
    r.push(String::from_str("K"));
    r.push(String::from_str("I"));
    r.push(String::from_str("is"));
    r.push(String::from_str("empty"));
    r.push(String::from_str("upper"));
    r.push(String::from_str("lower"));
    r.push(String::from_str("cap"));
    r.push(String::from_str("+"));
    r.push(String::from_str("0"));
    r.push(String::from_str("+1"));
    r.push(String::from_str("-1"));
    r.push(String::from_str("wc"));
    r.push(String::from_str("cc"));
    r.push(String::from_str("string-of-int"));
    r.push(String::from_str("findchar"));
    r.push(String::from_str("<SPACE>"));
    r.push(String::from_str("<COMMA>"));
    r.push(String::from_str("<DOT>"));
    r.push(String::from_str("<AT>"));
    r.push(String::from_str("<LESS-THAN>"));
    r.push(String::from_str("<GREATER-THAN>"));
    r.push(String::from_str("string-of-char"));
    r.push(String::from_str("substr"));
    r.push(String::from_str("replace"));
    r.push(String::from_str("replace-substr-first"));
    r.push(String::from_str("replace-substr-all"));
    r.push(String::from_str("nth"));
    r.push(String::from_str("fnth"));
    r.push(String::from_str("feach"));
    proof {
        assert(r@.map_values(|s: String| s@) =~= spec_primitives());
    }
    r
}

/// Whether some string of `v` has the same characters as `s`.
pub fn contains_string(v: &Vec<String>, s: &String) -> (r: bool)
    ensures
        r == v@.map_values(|t: String| t@).contains(s@),
{
    let n = v.len();
    let mut i: usize = 0;
    while i < n
        invariant
            n == v@.len(),
            i <= n,
            forall|k: int| 0 <= k < i ==> (#[trigger] v@[k])@ != s@,
        decreases n - i,
    {
        if string_eq(&v[i], s) {
            proof {
                assert(v@.map_values(|t: String| t@)[i as int] == s@);
            }
            return true;
        }
        i = i + 1;
    }
    proof {
        let mapped = v@.map_values(|t: String| t@);
        assert forall|k: int| 0 <= k < mapped.len() implies #[trigger] mapped[k] != s@ by {
            assert(mapped[k] == v@[k]@);
        }
        assert(!mapped.contains(s@));
    }
    false
}

/// Character-for-character string equality.
fn string_eq(a: &String, b: &String) -> (r: bool)
    ensures
        r == (a@ == b@),
{
    *a == *b
}

/// The mechanism tag whose artifacts carry synthesis fragments.
pub open spec fn ec_tag() -> Seq<char> {
    "ec"@
}

/// The view of a context listing: id, mechanism tag, payload.
pub open spec fn ctx_view(s: Seq<(usize, String, String)>) -> Seq<(int, Seq<char>, Seq<char>)> {
    s.map_values(|t: (usize, String, String)| (t.0 as int, t.1@, t.2@))
}

/// Every payload of an `ec`-tagged entry parses as a JSON list of strings.
pub open spec fn all_payloads_parse(s: Seq<(int, Seq<char>, Seq<char>)>) -> bool {
    forall|k: int|
        0 <= k < s.len() && (#[trigger] s[k]).1 == ec_tag() ==> json_string_list(s[k].2) is Some
}

/// `id` occurs as an artifact id in the listing.
pub open spec fn id_in_ctx(s: Seq<(int, Seq<char>, Seq<char>)>, id: int) -> bool {
    exists|k: int| 0 <= k < s.len() && (#[trigger] s[k]).0 == id
}

/// Each expression of `exprs` mapped to `id`, later entries overriding.
pub open spec fn insert_exprs(m: Map<Seq<char>, int>, exprs: Seq<Seq<char>>, id: int) -> Map<
    Seq<char>,
    int,
>
    decreases exprs.len(),
{
    if exprs.len() == 0 {
        m
    } else {
        insert_exprs(m, exprs.drop_last(), id).insert(exprs.last(), id)
    }
}

/// The expression-to-artifact map of a context listing: every expression in
/// the payload of an `ec` artifact, mapped to that artifact's id; when an
/// expression occurs in several artifacts the later one wins.
pub open spec fn expr_map(s: Seq<(int, Seq<char>, Seq<char>)>) -> Map<Seq<char>, int>
    decreases s.len(),
{
    if s.len() == 0 {
        Map::empty()
    } else {
        let m = expr_map(s.drop_last());
        let t = s.last();
        if t.1 == ec_tag() {
            match json_string_list(t.2) {
                Some(es) => insert_exprs(m, es, t.0),
                None => m,
            }
        } else {
            m
        }
    }
}

/// The view of an association list from expressions to artifact ids.
pub open spec fn assoc_view(s: Seq<(String, usize)>) -> Seq<(Seq<char>, int)> {
    s.map_values(|p: (String, usize)| (p.0@, p.1 as int))
}

/// The association list holds exactly the pairs of the map, keys unique.
pub open spec fn assoc_represents(s: Seq<(Seq<char>, int)>, m: Map<Seq<char>, int>) -> bool {
    &&& forall|i: int|
        0 <= i < s.len() ==> m.contains_key((#[trigger] s[i]).0) && m[s[i].0] == s[i].1
    &&& forall|k: Seq<char>| #[trigger]
        m.contains_key(k) ==> exists|i: int| 0 <= i < s.len() && (s[i]).0 == k
    &&& forall|i: int, j: int|
        0 <= i < s.len() && 0 <= j < s.len() && i != j ==> (#[trigger] s[i]).0 != (
        #[trigger] s[j]).0
}

/// Adds or replaces the binding for `key`.
fn upsert(out: &mut Vec<(String, usize)>, key: String, id: usize, m: Ghost<Map<Seq<char>, int>>)
    requires
        assoc_represents(assoc_view(old(out)@), m@),
    ensures
        assoc_represents(assoc_view(final(out)@), m@.insert(key@, id as int)),
        forall|t: int|
            0 <= t < final(out)@.len() ==> ((#[trigger] final(out)@[t]).1 == id || exists|u: int|
                0 <= u < old(out)@.len() && (old(out)@[u]).1 == final(out)@[t].1),
{
    let ghost prior = out@;
    let n = out.len();
    let mut i: usize = 0;
    while i < n
        invariant
            n == out@.len(),
            i <= n,
            out@ == prior,
            prior == old(out)@,
            assoc_represents(assoc_view(prior), m@),
            forall|k: int| 0 <= k < i ==> (#[trigger] out@[k]).0@ != key@,
        decreases n - i,
    {
        if string_eq(&out[i].0, &key) {
            proof {
                assert(assoc_view(prior)[i as int].0 == key@);
            }
            out[i] = (key, id);
            proof {
                let sv = assoc_view(out@);
                let pv = assoc_view(prior);
                assert(sv =~= pv.update(i as int, (key@, id as int)));
                assert forall|t: int|
                    0 <= t < sv.len() implies m@.insert(key@, id as int).contains_key(
                    (#[trigger] sv[t]).0,
                ) && m@.insert(key@, id as int)[sv[t].0] == sv[t].1 by {
                    if t == i {
                        assert(sv[t] == (key@, id as int));
                    } else {
                        assert(sv[t] == pv[t]);
                        assert(pv[t].0 != key@) by {
                            assert(pv[t].0 != pv[i as int].0);
                        }
                        assert(m@.contains_key(pv[t].0) && m@[pv[t].0] == pv[t].1);
                    }
                }
                assert forall|k: Seq<char>| #[trigger]
                    m@.insert(key@, id as int).contains_key(k) implies exists|t: int|
                    0 <= t < sv.len() && (sv[t]).0 == k by {
                    if k == key@ {
                        assert(sv[i as int].0 == k);
                    } else {
                        assert(m@.contains_key(k));
                        let u = choose|u: int| 0 <= u < pv.len() && (pv[u]).0 == k;
                        assert(u != i);
                        assert(sv[u].0 == k);
                    }
                }
                assert forall|a: int, b: int|
                    0 <= a < sv.len() && 0 <= b < sv.len() && a != b implies (
                #[trigger] sv[a]).0 != (#[trigger] sv[b]).0 by {
                    assert(sv[a].0 == pv[a].0 && sv[b].0 == pv[b].0);
                }
                assert forall|t: int|
                    0 <= t < out@.len() implies ((#[trigger] out@[t]).1 == id || exists|u: int|
                        0 <= u < prior.len() && (prior[u]).1 == out@[t].1) by {
                    if t != i {
                        assert(prior[t].1 == out@[t].1);
                    }
                }
            }
            return ;
        }
        i = i + 1;
    }
    out.push((key, id));
    proof {
        let sv = assoc_view(out@);
        let pv = assoc_view(prior);
        assert(sv =~= pv.push((out@[out@.len() - 1].0@, id as int)));
        assert(out@[out@.len() - 1].0@ == key@);
        assert(!m@.contains_key(key@)) by {
            if m@.contains_key(key@) {
                let u = choose|u: int| 0 <= u < pv.len() && (pv[u]).0 == key@;
                assert(prior[u].0@ == key@);
            }
        }
        assert forall|t: int|
            0 <= t < sv.len() implies m@.insert(key@, id as int).contains_key((#[trigger] sv[t]).0)
            && m@.insert(key@, id as int)[sv[t].0] == sv[t].1 by {
            if t < pv.len() {
                assert(sv[t] == pv[t]);
                assert(pv[t].0 != key@) by {
                    if pv[t].0 == key@ {
                        assert(m@.contains_key(pv[t].0));
                    }
                }
            }
        }
        assert forall|k: Seq<char>| #[trigger]
            m@.insert(key@, id as int).contains_key(k) implies exists|t: int|
            0 <= t < sv.len() && (sv[t]).0 == k by {
            if k == key@ {
                assert(sv[sv.len() - 1].0 == k);
            } else {
                assert(m@.contains_key(k));
                let u = choose|u: int| 0 <= u < pv.len() && (pv[u]).0 == k;
                assert(sv[u].0 == k);
            }
        }
        assert forall|a: int, b: int|
            0 <= a < sv.len() && 0 <= b < sv.len() && a != b implies (#[trigger] sv[a]).0 != (
        #[trigger] sv[b]).0 by {
            if a < pv.len() && b < pv.len() {
                assert(sv[a].0 == pv[a].0 && sv[b].0 == pv[b].0);
            } else if a < pv.len() {
                assert(sv[b].0 == key@ && sv[a].0 == pv[a].0);
                assert(pv[a].0 != key@) by {
                    if pv[a].0 == key@ {
                        assert(m@.contains_key(pv[a].0));
                    }
                }
            } else {
                assert(sv[a].0 == key@ && sv[b].0 == pv[b].0);
                assert(pv[b].0 != key@) by {
                    if pv[b].0 == key@ {
                        assert(m@.contains_key(pv[b].0));
                    }
                }
            }
        }
        assert forall|t: int|
            0 <= t < out@.len() implies ((#[trigger] out@[t]).1 == id || exists|u: int|
                0 <= u < prior.len() && (prior[u]).1 == out@[t].1) by {
            if t < prior.len() {
                assert(prior[t].1 == out@[t].1);
            }
        }
    }
}

/// Looks an expression up in an association list.
fn lookup_expr(assoc: &Vec<(String, usize)>, e: &String, m: Ghost<Map<Seq<char>, int>>) -> (r:
    Option<usize>)
    requires
        assoc_represents(assoc_view(assoc@), m@),
    ensures
        (r is Some) == m@.contains_key(e@),
        r matches Some(v) ==> m@[e@] == v as int,
{
    let n = assoc.len();
    let mut i: usize = 0;
    while i < n
        invariant
            n == assoc@.len(),
            i <= n,
            assoc_represents(assoc_view(assoc@), m@),
            forall|k: int| 0 <= k < i ==> (#[trigger] assoc@[k]).0@ != e@,
        decreases n - i,
    {
        if string_eq(&assoc[i].0, e) {
            proof {
                assert(assoc_view(assoc@)[i as int].0 == e@);
            }
            return Some(assoc[i].1);
        }
        i = i + 1;
    }
    proof {
        if m@.contains_key(e@) {
            let u = choose|u: int|
                0 <= u < assoc_view(assoc@).len() && (assoc_view(assoc@)[u]).0 == e@;
            assert(assoc@[u].0@ == e@);
        }
    }
    None
}

/// The expression-to-artifact map of a context listing, as an association
/// list. Fails exactly when some `ec` payload does not parse.
pub fn exprs_in_context(ctx: &Vec<(usize, String, String)>) -> (r: Result<
    Vec<(String, usize)>,
    EcError,
>)
    ensures
        (r is Ok) == all_payloads_parse(ctx_view(ctx@)),
        !(r is Ok) ==> r == Err::<Vec<(String, usize)>, EcError>(EcError::BadPayload),
        r matches Ok(v) ==> assoc_represents(assoc_view(v@), expr_map(ctx_view(ctx@))),
        r matches Ok(v) ==> forall|t: int|
            0 <= t < v@.len() ==> id_in_ctx(ctx_view(ctx@), (#[trigger] v@[t]).1 as int),
{
    let ghost cv = ctx_view(ctx@);
    let ec = String::from_str("ec");
    let mut out: Vec<(String, usize)> = Vec::new();
    let n = ctx.len();
    let mut i: usize = 0;
    while i < n
        invariant
            n == ctx@.len(),
            i <= n,
            cv == ctx_view(ctx@),
            ec@ == ec_tag(),
            all_payloads_parse(cv.take(i as int)),
            assoc_represents(assoc_view(out@), expr_map(cv.take(i as int))),
            forall|t: int| 0 <= t < out@.len() ==> id_in_ctx(cv, (#[trigger] out@[t]).1 as int),
        decreases n - i,
    {
        proof {
            assert(cv[i as int] == (ctx@[i as int].0 as int, ctx@[i as int].1@, ctx@[i as int].2@));
            assert(cv.take(i + 1).drop_last() =~= cv.take(i as int));
            assert(cv.take(i + 1).last() == cv[i as int]);
        }
        let is_ec = string_eq(&ctx[i].1, &ec);
        if is_ec {
            let parsed = parse_string_list(&ctx[i].2);
            match parsed {
                None => {
                    proof {
                        assert(!all_payloads_parse(cv)) by {
                            assert(cv[i as int].1 == ec_tag());
                            assert(!(json_string_list(cv[i as int].2) is Some));
                        }
                    }
                    return Err(EcError::BadPayload);
                },
                Some(exprs) => {
                    let ghost ev = exprs@.map_values(|t: String| t@);
                    let xid = ctx[i].0;
                    let m_exp = exprs.len();
                    let mut j: usize = 0;
                    while j < m_exp
                        invariant
                            n == ctx@.len(),
                            i < n,
                            cv == ctx_view(ctx@),
                            m_exp == exprs@.len(),
                            j <= m_exp,
                            ev == exprs@.map_values(|t: String| t@),
                            xid == ctx@[i as int].0,
                            cv[i as int].0 == xid as int,
                            assoc_represents(
                                assoc_view(out@),
                                insert_exprs(
                                    expr_map(cv.take(i as int)),
                                    ev.take(j as int),
                                    xid as int,
                                ),
                            ),
                            forall|t: int|
                                0 <= t < out@.len() ==> id_in_ctx(
                                    cv,
                                    (#[trigger] out@[t]).1 as int,
                                ),
                        decreases m_exp - j,
                    {
                        let e = exprs[j].clone();
                        proof {
                            assert(e@ == ev[j as int]);
                            assert(ev.take(j + 1).drop_last() =~= ev.take(j as int));
                            assert(ev.take(j + 1).last() == ev[j as int]);
                        }
                        upsert(
                            &mut out,
                            e,
                            xid,
                            Ghost(
                                insert_exprs(
                                    expr_map(cv.take(i as int)),
                                    ev.take(j as int),
                                    xid as int,
                                ),
                            ),
                        );
                        proof {
                            assert(id_in_ctx(cv, xid as int)) by {
                                assert(cv[i as int].0 == xid as int);
                            }
                        }
                        j = j + 1;
                    }
                    proof {
                        assert(ev.take(m_exp as int) =~= ev);
                        assert(Some(ev) == json_string_list(cv[i as int].2));
                        assert(expr_map(cv.take(i + 1)) == insert_exprs(
                            expr_map(cv.take(i as int)),
                            ev,
                            xid as int,
                        ));
                    }
                },
            }
        } else {
            proof {
                assert(cv[i as int].1 != ec_tag());
                assert(expr_map(cv.take(i + 1)) == expr_map(cv.take(i as int)));
            }
        }
        i = i + 1;
    }
    proof {
        assert(cv.take(n as int) =~= cv);
    }
    Ok(out)
}

/// For each expression, the artifact of the listing whose payload contains
/// it, if any; for an expression in several artifacts the later one wins.
/// Fails exactly when some `ec` payload does not parse.
pub fn find_exprs_in_context(ctx: &Vec<(usize, String, String)>, exprs: &Vec<String>) -> (r: Result<
    Vec<Option<usize>>,
    EcError,
>)
    ensures
        (r is Ok) == all_payloads_parse(ctx_view(ctx@)),
        r matches Ok(v) ==> {
            &&& v@.len() == exprs@.len()
            &&& forall|k: int|
                0 <= k < v@.len() ==> (((#[trigger] v@[k]) is Some) == expr_map(
                    ctx_view(ctx@),
                ).contains_key(exprs@[k]@) && (v@[k] matches Some(id) ==> expr_map(
                    ctx_view(ctx@),
                )[exprs@[k]@] == id as int))
        },
{
    let assoc = match exprs_in_context(ctx) {
        Err(e) => {
            return Err(e);
        },
        Ok(a) => a,
    };
    let ghost m = expr_map(ctx_view(ctx@));
    let n = exprs.len();
    let mut r: Vec<Option<usize>> = Vec::new();
    let mut k: usize = 0;
    while k < n
        invariant
            n == exprs@.len(),
            k <= n,
            assoc_represents(assoc_view(assoc@), m),
            m == expr_map(ctx_view(ctx@)),
            r@.len() == k,
            forall|t: int|
                0 <= t < k ==> (((#[trigger] r@[t]) is Some) == m.contains_key(exprs@[t]@) && (
                r@[t] matches Some(id) ==> m[exprs@[t]@] == id as int)),
        decreases n - k,
    {
        let found = lookup_expr(&assoc, &exprs[k], Ghost(m));
        r.push(found);
        k = k + 1;
    }
    Ok(r)
}

/// As `find_exprs_in_context`, for a single expression.
pub fn find_expr_in_context(ctx: &Vec<(usize, String, String)>, expr: &String) -> (r: Result<
    Option<usize>,
    EcError,
>)
    ensures
        (r is Ok) == all_payloads_parse(ctx_view(ctx@)),
        r matches Ok(v) ==> ((v is Some) == expr_map(ctx_view(ctx@)).contains_key(expr@) && (
        v matches Some(id) ==> expr_map(ctx_view(ctx@))[expr@] == id as int)),
{
    let assoc = match exprs_in_context(ctx) {
        Err(e) => {
            return Err(e);
        },
        Ok(a) => a,
    };
    let found = lookup_expr(&assoc, expr, Ghost(expr_map(ctx_view(ctx@))));
    Ok(found)
}

/// The view of a grammar: expression and fixed-point log-likelihood.
pub open spec fn grammar_view(g: Seq<Comb>) -> Seq<(Seq<char>, Option<i64>)> {
    g.map_values(|c: Comb| (c.expr@, c.log_likelihood))
}

/// The view of a list of learned fragments.
pub open spec fn pair_view(s: Seq<(String, i64)>) -> Seq<(Seq<char>, i64)> {
    s.map_values(|p: (String, i64)| (p.0@, p.1))
}

/// The learned fragments of a grammar: the entries with a finite
/// log-likelihood whose expression is not primitive, in grammar order.
pub open spec fn spec_learned(g: Seq<(Seq<char>, Option<i64>)>) -> Seq<(Seq<char>, i64)>
    decreases g.len(),
{
    if g.len() == 0 {
        Seq::empty()
    } else {
        let rest = spec_learned(g.drop_last());
        let t = g.last();
        match t.1 {
            Some(v) => if !is_primitive(t.0) {
                rest.push((t.0, v))
            } else {
                rest
            },
            None => rest,
        }
    }
}

/// Every learned log-likelihood is within the bound its grammar obeyed.
pub proof fn lemma_learned_bounded(g: Seq<(Seq<char>, Option<i64>)>)
    requires
        forall|k: int|
            0 <= k < g.len() ==> ((#[trigger] g[k]).1 matches Some(v) ==> -LL_BOUND <= v
                <= LL_BOUND),
    ensures
        forall|k: int|
            0 <= k < spec_learned(g).len() ==> -LL_BOUND <= (#[trigger] spec_learned(g)[k]).1
                <= LL_BOUND,
    decreases g.len(),
{
    if g.len() > 0 {
        let prefix = g.drop_last();
        assert forall|k: int|
            0 <= k < prefix.len() implies ((#[trigger] prefix[k]).1 matches Some(v) ==> -LL_BOUND
                <= v <= LL_BOUND) by {
            assert(prefix[k] == g[k]);
        }
        lemma_learned_bounded(prefix);
        let rest = spec_learned(prefix);
        assert(g[g.len() - 1].1 matches Some(v) ==> -LL_BOUND <= v <= LL_BOUND);
        assert forall|k: int|
            0 <= k < spec_learned(g).len() implies -LL_BOUND <= (#[trigger] spec_learned(g)[k]).1
                <= LL_BOUND by {
            if k < rest.len() {
                assert(spec_learned(g)[k] == rest[k]);
            }
        }
    }
}

/// The learned fragments of a synthesis result.
pub fn learned_of(results: &Results) -> (r: Vec<(String, i64)>)
    ensures
        pair_view(r@) == spec_learned(grammar_view(results.grammar@)),
{
    let prims = primitives();
    let ghost gv = grammar_view(results.grammar@);
    let mut r: Vec<(String, i64)> = Vec::new();
    let n = results.grammar.len();
    let mut i: usize = 0;
    while i < n
        invariant
            n == results.grammar@.len(),
            i <= n,
            gv == grammar_view(results.grammar@),
            prims@.map_values(|s: String| s@) == spec_primitives(),
            pair_view(r@) =~= spec_learned(gv.take(i as int)),
        decreases n - i,
    {
        proof {
            assert(gv[i as int] == (results.grammar@[i as int].expr@,
            results.grammar@[i as int].log_likelihood));
            assert(gv.take(i + 1).drop_last() =~= gv.take(i as int));
            assert(gv.take(i + 1).last() == gv[i as int]);
        }
        let c = &results.grammar[i];
        match c.log_likelihood {
            Some(v) => {
                let prim = contains_string(&prims, &c.expr);
                if !prim {
                    let ghost before = r@;
                    r.push((c.expr.clone(), v));
                    proof {
                        assert(pair_view(r@) =~= pair_view(before).push((c.expr@, v)));
                    }
                }
            },
            None => {},
        }
        i = i + 1;
    }
    proof {
        assert(gv.take(n as int) =~= gv);
    }
    r
}

/// An index of a fragment with the greatest log-likelihood.
pub fn most_probable(learned: &Vec<(String, i64)>) -> (r: usize)
    requires
        learned@.len() >= 1,
    ensures
        (r as int) < learned@.len(),
        forall|t: int| 0 <= t < learned@.len() ==> learned@[r as int].1 >= (#[trigger] learned@[t]).1,
{
    let mut best: usize = 0;
    let n = learned.len();
    let mut i: usize = 1;
    while i < n
        invariant
            n == learned@.len(),
            1 <= i <= n,
            (best as int) < n,
            forall|t: int| 0 <= t < i ==> learned@[best as int].1 >= (#[trigger] learned@[t]).1,
        decreases n - i,
    {
        if learned[i].1 > learned[best].1 {
            best = i;
        }
        i = i + 1;
    }
    best
}

/// `learned` reordered by descending log-likelihood: a permutation, sorted,
/// every entry drawn from the input.
fn sort_by_ll_desc(v: Vec<(String, i64)>) -> (r: Vec<(String, i64)>)
    ensures
        r@.len() == v@.len(),
        forall|a: int, b: int| 0 <= a <= b < r@.len() ==> (#[trigger] r@[a]).1 >= (
        #[trigger] r@[b]).1,
        pair_view(r@).to_multiset() == pair_view(v@).to_multiset(),
        forall|t: int| 0 <= t < r@.len() ==> pair_view(v@).contains(#[trigger] pair_view(r@)[t]),
{
    let ghost orig = v@;
    let mut rem = v;
    let mut r: Vec<(String, i64)> = Vec::new();
    proof {
        broadcast use vstd::seq_lib::group_to_multiset_ensures;

        assert(pair_view(r@) =~= Seq::<(Seq<char>, i64)>::empty());
        assert(pair_view(rem@) == pair_view(orig));
        assert(pair_view(r@).to_multiset().add(pair_view(rem@).to_multiset()) =~= pair_view(
            orig,
        ).to_multiset());
    }
    while rem.len() > 0
        invariant
            r@.len() + rem@.len() == orig.len(),
            forall|a: int, b: int| 0 <= a <= b < r@.len() ==> (#[trigger] r@[a]).1 >= (
            #[trigger] r@[b]).1,
            forall|a: int, u: int|
                #![trigger r@[a], rem@[u]]
                0 <= a < r@.len() && 0 <= u < rem@.len() ==> r@[a].1 >= rem@[u].1,
            pair_view(r@).to_multiset().add(pair_view(rem@).to_multiset()) == pair_view(
                orig,
            ).to_multiset(),
            forall|t: int|
                0 <= t < r@.len() ==> pair_view(orig).contains(#[trigger] pair_view(r@)[t]),
            forall|t: int|
                0 <= t < rem@.len() ==> pair_view(orig).contains(#[trigger] pair_view(rem@)[t]),
        decreases rem@.len(),
    {
        let m = rem.len();
        let mut best: usize = 0;
        let mut i: usize = 1;
        while i < m
            invariant
                m == rem@.len(),
                1 <= i <= m,
                (best as int) < m,
                forall|t: int| 0 <= t < i ==> rem@[best as int].1 >= (#[trigger] rem@[t]).1,
            decreases m - i,
        {
            if rem[i].1 > rem[best].1 {
                best = i;
            }
            i = i + 1;
        }
        let ghost rem_prev = rem@;
        let ghost r_prev = r@;
        let chosen = rem.remove(best);
        let ghost ch = (chosen.0@, chosen.1);
        r.push(chosen);
        proof {
            broadcast use vstd::seq_lib::group_to_multiset_ensures;

            assert(pair_view(rem@) =~= pair_view(rem_prev).remove(best as int));
            assert(pair_view(r@) =~= pair_view(r_prev).push(ch));
            assert(pair_view(rem_prev)[best as int] == ch);
            assert(pair_view(r@).to_multiset() =~= pair_view(r_prev).to_multiset().insert(ch));
            assert(pair_view(rem@).to_multiset() =~= pair_view(rem_prev).to_multiset().remove(ch));
            assert(pair_view(rem_prev).to_multiset().contains(ch));
            assert(pair_view(r@).to_multiset().add(pair_view(rem@).to_multiset())
                =~= pair_view(orig).to_multiset());
            assert forall|a: int, b: int|
                0 <= a <= b < r@.len() implies (#[trigger] r@[a]).1 >= (#[trigger] r@[b]).1 by {
                if b == r@.len() - 1 && a < b {
                    assert(r@[a] == r_prev[a]);
                    assert(pair_view(r@)[b] == ch);
                    assert(r_prev[a].1 >= rem_prev[best as int].1);
                    assert(r@[b].1 == rem_prev[best as int].1);
                }
            }
            assert forall|a: int, u: int|
                #![trigger r@[a], rem@[u]]
                0 <= a < r@.len() && 0 <= u < rem@.len() implies r@[a].1 >= rem@[u].1 by {
                let up = if u < best {
                    u
                } else {
                    u + 1
                };
                assert(rem@[u] == rem_prev[up]);
                if a < r@.len() - 1 {
                    assert(r@[a] == r_prev[a]);
                } else {
                    assert(r@[a].1 == rem_prev[best as int].1);
                    assert(rem_prev[best as int].1 >= rem_prev[up].1);
                }
            }
            assert forall|t: int|
                0 <= t < r@.len() implies pair_view(orig).contains(
                #[trigger] pair_view(r@)[t],
            ) by {
                if t < r_prev.len() {
                    assert(pair_view(r@)[t] == pair_view(r_prev)[t]);
                } else {
                    assert(pair_view(r@)[t] == pair_view(rem_prev)[best as int]);
                }
            }
            assert forall|t: int|
                0 <= t < rem@.len() implies pair_view(orig).contains(
                #[trigger] pair_view(rem@)[t],
            ) by {
                let up = if t < best {
                    t
                } else {
                    t + 1
                };
                assert(pair_view(rem@)[t] == pair_view(rem_prev)[up]);
            }
        }
    }
    proof {
        assert(pair_view(rem@) =~= Seq::<(Seq<char>, i64)>::empty());
        broadcast use vstd::seq_lib::group_to_multiset_ensures;

        assert(pair_view(r@).to_multiset().add(Multiset::<(Seq<char>, i64)>::empty())
            =~= pair_view(r@).to_multiset());
        assert(pair_view(rem@).to_multiset() =~= Multiset::<(Seq<char>, i64)>::empty());
    }
    r
}

/// The least log-likelihood among the entries.
pub open spec fn ll_min(s: Seq<(usize, i64)>) -> int
    decreases s.len(),
{
    if s.len() <= 1 {
        if s.len() == 1 {
            s[0].1 as int
        } else {
            0
        }
    } else {
        let m = ll_min(s.drop_last());
        if s.last().1 < m {
            s.last().1 as int
        } else {
            m
        }
    }
}

/// The greatest log-likelihood among the entries.
pub open spec fn ll_max(s: Seq<(usize, i64)>) -> int
    decreases s.len(),
{
    if s.len() <= 1 {
        if s.len() == 1 {
            s[0].1 as int
        } else {
            0
        }
    } else {
        let m = ll_max(s.drop_last());
        if s.last().1 > m {
            s.last().1 as int
        } else {
            m
        }
    }
}

proof fn lemma_ll_min_max(s: Seq<(usize, i64)>)
    requires
        s.len() >= 1,
    ensures
        forall|k: int| 0 <= k < s.len() ==> ll_min(s) <= (#[trigger] s[k]).1 <= ll_max(s),
    decreases s.len(),
{
    if s.len() > 1 {
        lemma_ll_min_max(s.drop_last());
        assert forall|k: int| 0 <= k < s.len() implies ll_min(s) <= (#[trigger] s[k]).1 <= ll_max(
            s,
        ) by {
            if k < s.len() - 1 {
                assert(s.drop_last()[k] == s[k]);
            }
        }
    }
}

/// The normalized access count for log-likelihood `p` over the span
/// `[lo, hi]`.
pub open spec fn norm_count(p: int, lo: int, hi: int) -> int {
    (EC_ACCESS_FACTOR * (p - lo)) / (hi - lo)
}

/// Normalized access counts for the located fragments: each count is the
/// fragment's position in the span of log-likelihoods, scaled to
/// `[0, EC_ACCESS_FACTOR]`. When the span is degenerate — no entries, or all
/// log-likelihoods equal — every entry is skipped and nothing is reported.
pub fn access_counts(entries: &Vec<(usize, i64)>) -> (r: Vec<(usize, u64)>)
    requires
        forall|k: int|
            0 <= k < entries@.len() ==> -LL_BOUND <= (#[trigger] entries@[k]).1 <= LL_BOUND,
    ensures
        r@ == spec_norm_counts(entries@),
{
    let n = entries.len();
    let mut r: Vec<(usize, u64)> = Vec::new();
    if n == 0 {
        proof {
            assert(r@ =~= spec_norm_counts(entries@));
        }
        return r;
    }
    let mut mn: i64 = entries[0].1;
    let mut mx: i64 = entries[0].1;
    let mut i: usize = 1;
    while i < n
        invariant
            n == entries@.len(),
            1 <= i <= n,
            forall|t: int|
                0 <= t < entries@.len() ==> -LL_BOUND <= (#[trigger] entries@[t]).1 <= LL_BOUND,
            -LL_BOUND <= mn <= LL_BOUND,
            -LL_BOUND <= mx <= LL_BOUND,
            mn as int == ll_min(entries@.take(i as int)),
            mx as int == ll_max(entries@.take(i as int)),
        decreases n - i,
    {
        proof {
            assert(entries@.take(i + 1).drop_last() =~= entries@.take(i as int));
            assert(entries@.take(i + 1).last() == entries@[i as int]);
        }
        let p = entries[i].1;
        if p < mn {
            mn = p;
        }
        if p > mx {
            mx = p;
        }
        i = i + 1;
    }
    proof {
        assert(entries@.take(n as int) =~= entries@);
    }
    if mn == mx {
        proof {
            assert(r@ =~= spec_norm_counts(entries@));
        }
        return r;
    }
    proof {
        lemma_ll_min_max(entries@);
    }
    let mut k: usize = 0;
    while k < n
        invariant
            n == entries@.len(),
            k <= n,
            mn as int == ll_min(entries@),
            mx as int == ll_max(entries@),
            mn < mx,
            -LL_BOUND <= mn <= LL_BOUND,
            -LL_BOUND <= mx <= LL_BOUND,
            forall|t: int|
                0 <= t < entries@.len() ==> -LL_BOUND <= (#[trigger] entries@[t]).1 <= LL_BOUND,
            forall|t: int| 0 <= t < entries@.len() ==> mn <= (#[trigger] entries@[t]).1 <= mx,
            r@.len() == k,
            forall|t: int|
                0 <= t < k ==> #[trigger] r@[t] == (
                    entries@[t].0,
                    norm_count(entries@[t].1 as int, mn as int, mx as int) as u64,
                ),
        decreases n - k,
    {
        let p = entries[k].1;
        proof {
            assert(mn <= entries@[k as int].1 <= mx);
            assert(-LL_BOUND <= entries@[k as int].1 <= LL_BOUND);
        }
        let diff: u64 = (p - mn) as u64;
        let span: u64 = (mx - mn) as u64;
        proof {
            assert(diff <= 2_000_000_000_000_000u64);
            assert(EC_ACCESS_FACTOR * diff <= 800_000_000_000_000_000u64);
        }
        let q: u64 = (EC_ACCESS_FACTOR * diff) / span;
        proof {
            assert(EC_ACCESS_FACTOR * diff == EC_ACCESS_FACTOR * ((p - mn) as int));
            assert(q == norm_count(p as int, mn as int, mx as int));
        }
        r.push((entries[k].0, q));
        k = k + 1;
    }
    proof {
        assert(r@ =~= spec_norm_counts(entries@));
    }
    r
}

/// The first up to `cap` expressions of `l`, in order, that are neither
/// primitive nor present in the map.
pub open spec fn spec_new_combs(l: Seq<(Seq<char>, i64)>, m: Map<Seq<char>, int>, cap: nat) -> Seq<
    Seq<char>,
>
    decreases l.len(),
{
    if l.len() == 0 || cap == 0 {
        Seq::empty()
    } else {
        let e = l[0].0;
        if !is_primitive(e) && !m.contains_key(e) {
            seq![e] + spec_new_combs(l.drop_first(), m, (cap - 1) as nat)
        } else {
            spec_new_combs(l.drop_first(), m, cap)
        }
    }
}

/// The fragments that go into one new artifact: the first up to
/// `EC_MAX_IN_ARTIFACT` learned fragments, in the given order, that are
/// neither primitive nor already present in the context.
fn select_new_combs(
    learned: &Vec<(String, i64)>,
    present: &Vec<(String, usize)>,
    m: Ghost<Map<Seq<char>, int>>,
) -> (r: Vec<String>)
    requires
        assoc_represents(assoc_view(present@), m@),
    ensures
        r@.map_values(|s: String| s@) == spec_new_combs(
            pair_view(learned@),
            m@,
            EC_MAX_IN_ARTIFACT as nat,
        ),
{
    let ghost lv = pair_view(learned@);
    let ghost goal = spec_new_combs(lv, m@, EC_MAX_IN_ARTIFACT as nat);
    let prims = primitives();
    let mut r: Vec<String> = Vec::new();
    let n = learned.len();
    let mut i: usize = 0;
    proof {
        assert(lv.skip(0) =~= lv);
        assert(r@.map_values(|s: String| s@) =~= Seq::<Seq<char>>::empty());
        assert(goal =~= r@.map_values(|s: String| s@) + spec_new_combs(
            lv.skip(0),
            m@,
            EC_MAX_IN_ARTIFACT as nat,
        ));
    }
    while i < n && r.len() < EC_MAX_IN_ARTIFACT
        invariant
            n == learned@.len(),
            i <= n,
            lv == pair_view(learned@),
            goal == spec_new_combs(lv, m@, EC_MAX_IN_ARTIFACT as nat),
            prims@.map_values(|s: String| s@) == spec_primitives(),
            assoc_represents(assoc_view(present@), m@),
            r@.len() <= EC_MAX_IN_ARTIFACT,
            goal == r@.map_values(|s: String| s@) + spec_new_combs(
                lv.skip(i as int),
                m@,
                (EC_MAX_IN_ARTIFACT - r@.len()) as nat,
            ),
        decreases n - i,
    {
        proof {
            assert(lv.skip(i as int).len() == n - i);
            assert(lv.skip(i as int)[0] == lv[i as int]);
            assert(lv.skip(i as int).drop_first() =~= lv.skip(i + 1));
            assert(lv[i as int] == (learned@[i as int].0@, learned@[i as int].1));
        }
        let e = &learned[i].0;
        let prim = contains_string(&prims, e);
        let there = lookup_expr(present, e, m);
        if !prim && there.is_none() {
            let ghost before = r@;
            r.push(e.clone());
            proof {
                assert(r@.map_values(|s: String| s@) =~= before.map_values(|s: String| s@).push(
                    e@,
                ));
                assert(seq![lv[i as int].0] + spec_new_combs(
                    lv.skip(i + 1),
                    m@,
                    (EC_MAX_IN_ARTIFACT - r@.len()) as nat,
                ) =~= spec_new_combs(lv.skip(i as int), m@, (EC_MAX_IN_ARTIFACT - before.len()) as nat));
                assert(goal =~= r@.map_values(|s: String| s@) + spec_new_combs(
                    lv.skip(i + 1),
                    m@,
                    (EC_MAX_IN_ARTIFACT - r@.len()) as nat,
                ));
            }
        } else {
            proof {
                assert(spec_new_combs(lv.skip(i as int), m@, (EC_MAX_IN_ARTIFACT - r@.len()) as nat)
                    == spec_new_combs(lv.skip(i + 1), m@, (EC_MAX_IN_ARTIFACT - r@.len()) as nat));
            }
        }
        i = i + 1;
    }
    proof {
        if i == n {
            assert(lv.skip(n as int).len() == 0);
            assert(spec_new_combs(lv.skip(i as int), m@, (EC_MAX_IN_ARTIFACT - r@.len()) as nat)
                == Seq::<Seq<char>>::empty());
        } else {
            assert(r@.len() == EC_MAX_IN_ARTIFACT);
            assert(spec_new_combs(lv.skip(i as int), m@, 0) == Seq::<Seq<char>>::empty());
        }
        assert(goal =~= r@.map_values(|s: String| s@));
    }
    r
}

/// The grammar entries a context contributes to a synthesis input: the
/// expressions of every `ec` artifact's payload, in listing order.
pub open spec fn spec_grammar_additions(s: Seq<(int, Seq<char>, Seq<char>)>) -> Seq<Seq<char>>
    decreases s.len(),
{
    if s.len() == 0 {
        Seq::empty()
    } else {
        let rest = spec_grammar_additions(s.drop_last());
        let t = s.last();
        if t.1 == ec_tag() {
            match json_string_list(t.2) {
                Some(es) => rest + es,
                None => rest,
            }
        } else {
            rest
        }
    }
}

/// The expressions that the `ec` artifacts of a context listing contribute to
/// a synthesis input, in listing order. Fails exactly when some `ec` payload
/// does not parse.
pub fn grammar_additions(ctx: &Vec<(usize, String, String)>) -> (r: Result<Vec<String>, EcError>)
    ensures
        (r is Ok) == all_payloads_parse(ctx_view(ctx@)),
        r matches Ok(v) ==> v@.map_values(|s: String| s@) == spec_grammar_additions(
            ctx_view(ctx@),
        ),
{
    let ghost cv = ctx_view(ctx@);
    let ec = String::from_str("ec");
    let mut out: Vec<String> = Vec::new();
    let n = ctx.len();
    let mut i: usize = 0;
    while i < n
        invariant
            n == ctx@.len(),
            i <= n,
            cv == ctx_view(ctx@),
            ec@ == ec_tag(),
            all_payloads_parse(cv.take(i as int)),
            out@.map_values(|s: String| s@) =~= spec_grammar_additions(cv.take(i as int)),
        decreases n - i,
    {
        proof {
            assert(cv[i as int] == (ctx@[i as int].0 as int, ctx@[i as int].1@, ctx@[i as int].2@));
            assert(cv.take(i + 1).drop_last() =~= cv.take(i as int));
            assert(cv.take(i + 1).last() == cv[i as int]);
        }
        let is_ec = string_eq(&ctx[i].1, &ec);
        if is_ec {
            match parse_string_list(&ctx[i].2) {
                None => {
                    proof {
                        assert(!all_payloads_parse(cv)) by {
                            assert(cv[i as int].1 == ec_tag());
                            assert(!(json_string_list(cv[i as int].2) is Some));
                        }
                    }
                    return Err(EcError::BadPayload);
                },
                Some(exprs) => {
                    let ghost ev = exprs@.map_values(|t: String| t@);
                    let ghost base = out@;
                    let m_exp = exprs.len();
                    let mut j: usize = 0;
                    while j < m_exp
                        invariant
                            m_exp == exprs@.len(),
                            j <= m_exp,
                            ev == exprs@.map_values(|t: String| t@),
                            out@.map_values(|s: String| s@) =~= base.map_values(|s: String| s@)
                                + ev.take(j as int),
                        decreases m_exp - j,
                    {
                        let ghost before = out@;
                        out.push(exprs[j].clone());
                        proof {
                            assert(out@.map_values(|s: String| s@) =~= before.map_values(
                                |s: String| s@,
                            ).push(ev[j as int]));
                            assert(before.map_values(|s: String| s@).push(ev[j as int])
                                =~= base.map_values(|s: String| s@) + ev.take(j + 1));
                        }
                        j = j + 1;
                    }
                    proof {
                        assert(ev.take(m_exp as int) =~= ev);
                        assert(Some(ev) == json_string_list(cv[i as int].2));
                        assert(spec_grammar_additions(cv.take(i + 1)) == spec_grammar_additions(
                            cv.take(i as int),
                        ) + ev);
                    }
                },
            }
        } else {
            proof {
                assert(cv[i as int].1 != ec_tag());
                assert(spec_grammar_additions(cv.take(i + 1)) == spec_grammar_additions(
                    cv.take(i as int),
                ));
            }
        }
        i = i + 1;
    }
    proof {
        assert(cv.take(n as int) =~= cv);
    }
    Ok(out)
}

/// A curriculum course file name: `course_`, two characters other than a line
/// break, then `.json`.
pub open spec fn spec_is_course_file_name(s: Seq<char>) -> bool {
    &&& s.len() == 14
    &&& s.subrange(0, 7) == "course_"@
    &&& s.subrange(9, 14) == ".json"@
    &&& s[7] != '\n'
    &&& s[8] != '\n'
}

/// Whether `name` is a curriculum course file name.
pub fn is_course_file_name(name: &str) -> (r: bool)
    ensures
        r == spec_is_course_file_name(name@),
{
    proof {
        reveal_strlit("course_");
        reveal_strlit(".json");
    }
    let n = name.unicode_len();
    if n != 14 {
        return false;
    }
    let ok = name.get_char(0) == 'c' && name.get_char(1) == 'o' && name.get_char(2) == 'u'
        && name.get_char(3) == 'r' && name.get_char(4) == 's' && name.get_char(5) == 'e'
        && name.get_char(6) == '_' && name.get_char(7) != '\n' && name.get_char(8) != '\n'
        && name.get_char(9) == '.' && name.get_char(10) == 'j' && name.get_char(11) == 's'
        && name.get_char(12) == 'o' && name.get_char(13) == 'n';
    proof {
        if ok {
            assert(name@.subrange(0, 7) =~= "course_"@);
            assert(name@.subrange(9, 14) =~= ".json"@);
        } else {
            if name@.subrange(0, 7) == "course_"@ && name@.subrange(9, 14) == ".json"@ {
                assert(name@[0] == "course_"@[0]) by {
                    assert(name@.subrange(0, 7)[0] == name@[0]);
                }
                assert(name@[1] == "course_"@[1]) by {
                    assert(name@.subrange(0, 7)[1] == name@[1]);
                }
                assert(name@[2] == "course_"@[2]) by {
                    assert(name@.subrange(0, 7)[2] == name@[2]);
                }
                assert(name@[3] == "course_"@[3]) by {
                    assert(name@.subrange(0, 7)[3] == name@[3]);
                }
                assert(name@[4] == "course_"@[4]) by {
                    assert(name@.subrange(0, 7)[4] == name@[4]);
                }
                assert(name@[5] == "course_"@[5]) by {
                    assert(name@.subrange(0, 7)[5] == name@[5]);
                }
                assert(name@[6] == "course_"@[6]) by {
                    assert(name@.subrange(0, 7)[6] == name@[6]);
                }
                assert(name@[9] == ".json"@[0]) by {
                    assert(name@.subrange(9, 14)[0] == name@[9]);
                }
                assert(name@[10] == ".json"@[1]) by {
                    assert(name@.subrange(9, 14)[1] == name@[10]);
                }
                assert(name@[11] == ".json"@[2]) by {
                    assert(name@.subrange(9, 14)[2] == name@[11]);
                }
                assert(name@[12] == ".json"@[3]) by {
                    assert(name@.subrange(9, 14)[3] == name@[12]);
                }
                assert(name@[13] == ".json"@[4]) by {
                    assert(name@.subrange(9, 14)[4] == name@[13]);
                }
            }
        }
    }
    ok
}

/// Artifact `id` is one of `vis`, carries the `ec` tag, and its payload
/// parses to a list holding the expression `e`.
pub open spec fn expr_located(m: crate::model::NetworkModel, vis: Set<int>, e: Seq<char>, id: int) -> bool {
    &&& vis.contains(id)
    &&& 0 <= id < m.items.len()
    &&& m.items[id].mech == ec_tag()
    &&& json_string_list(m.items[id].data) matches Some(es) && es.contains(e)
}

/// Some artifact of `vis` holds the expression `e`.
pub open spec fn expr_known(m: crate::model::NetworkModel, vis: Set<int>, e: Seq<char>) -> bool {
    exists|id: int| expr_located(m, vis, e, id)
}

/// The map is an expression index of the artifacts in `vis`: its keys are
/// exactly the expressions known there, and each value is an artifact of
/// `vis` whose payload holds the key.
pub open spec fn expr_index_of(mm: Map<Seq<char>, int>, m: crate::model::NetworkModel, vis: Set<int>) -> bool {
    &&& forall|e: Seq<char>|
        #![trigger mm.contains_key(e)]
        #![trigger expr_known(m, vis, e)]
        mm.contains_key(e) <==> expr_known(m, vis, e)
    &&& forall|e: Seq<char>| #[trigger] mm.contains_key(e) ==> expr_located(m, vis, e, mm[e])
}

/// Adding a list of expressions adds exactly those keys; an expression of the
/// list maps to the new id, the others keep their binding.
proof fn lemma_insert_exprs(m: Map<Seq<char>, int>, es: Seq<Seq<char>>, id: int)
    ensures
        forall|x: Seq<char>| #[trigger]
            insert_exprs(m, es, id).contains_key(x) <==> (m.contains_key(x) || es.contains(x)),
        forall|x: Seq<char>| #[trigger]
            insert_exprs(m, es, id).contains_key(x) ==> insert_exprs(m, es, id)[x] == (
            if es.contains(x) {
                id
            } else {
                m[x]
            }),
    decreases es.len(),
{
    if es.len() > 0 {
        lemma_insert_exprs(m, es.drop_last(), id);
        let base = insert_exprs(m, es.drop_last(), id);
        let full = insert_exprs(m, es, id);
        assert(full == base.insert(es.last(), id));
        assert forall|x: Seq<char>| #[trigger] es.contains(x) implies es.drop_last().contains(x)
            || x == es.last() by {
            let k = choose|k: int| 0 <= k < es.len() && es[k] == x;
            if k < es.len() - 1 {
                assert(es.drop_last()[k] == x);
            }
        }
        assert forall|x: Seq<char>| es.drop_last().contains(x) implies #[trigger] es.contains(
            x,
        ) by {
            let k = choose|k: int| 0 <= k < es.drop_last().len() && es.drop_last()[k] == x;
            assert(es[k] == x);
        }
        assert(es.contains(es.last())) by {
            assert(es[es.len() - 1] == es.last());
        }
        assert forall|x: Seq<char>| #[trigger] full.contains_key(x) implies (m.contains_key(x)
            || es.contains(x)) by {
            if x != es.last() {
                assert(base.contains_key(x));
            }
        }
        assert forall|x: Seq<char>| (m.contains_key(x) || es.contains(x)) implies #[trigger]
            full.contains_key(x) by {
            if x != es.last() {
                assert(base.contains_key(x));
            }
        }
        assert forall|x: Seq<char>| #[trigger] full.contains_key(x) implies full[x] == (
        if es.contains(x) {
            id
        } else {
            m[x]
        }) by {
            if x == es.last() {
                assert(full[x] == id);
            } else {
                assert(full[x] == base[x]);
                assert(base.contains_key(x));
                if es.contains(x) {
                    assert(es.drop_last().contains(x));
                    assert(base[x] == id);
                } else {
                    assert(base[x] == m[x]);
                }
            }
        }
    }
}

/// The keys and values of a listing's expression map: a key is an expression
/// held by some `ec` entry, and its value is the id of such an entry.
proof fn lemma_expr_map_content(cv: Seq<(int, Seq<char>, Seq<char>)>)
    ensures
        forall|e: Seq<char>| #[trigger]
            expr_map(cv).contains_key(e) <==> exists|k: int|
                0 <= k < cv.len() && listing_entry_holds(#[trigger] cv[k], e),
        forall|e: Seq<char>| #[trigger]
            expr_map(cv).contains_key(e) ==> exists|k: int|
                0 <= k < cv.len() && listing_entry_holds(#[trigger] cv[k], e) && cv[k].0
                    == expr_map(cv)[e],
    decreases cv.len(),
{
    if cv.len() > 0 {
        let prefix = cv.drop_last();
        lemma_expr_map_content(prefix);
        let t = cv.last();
        assert forall|k: int| 0 <= k < prefix.len() implies prefix[k] == cv[k] by {}
        if t.1 == ec_tag() && json_string_list(t.2) is Some {
            let es = json_string_list(t.2).unwrap();
            lemma_insert_exprs(expr_map(prefix), es, t.0);
            assert forall|e: Seq<char>| #[trigger] expr_map(cv).contains_key(e) implies exists|
                k: int,
            |
                0 <= k < cv.len() && listing_entry_holds(#[trigger] cv[k], e) && cv[k].0
                    == expr_map(cv)[e] by {
                if es.contains(e) {
                    assert(listing_entry_holds(cv[cv.len() - 1], e));
                    assert(cv[cv.len() - 1].0 == expr_map(cv)[e]);
                } else {
                    assert(expr_map(prefix).contains_key(e));
                    let k = choose|k: int|
                        0 <= k < prefix.len() && listing_entry_holds(#[trigger] prefix[k], e)
                            && prefix[k].0 == expr_map(prefix)[e];
                    assert(listing_entry_holds(cv[k], e));
                    assert(expr_map(cv)[e] == expr_map(prefix)[e]);
                }
            }
            assert forall|e: Seq<char>|
                (exists|k: int|
                    0 <= k < cv.len() && listing_entry_holds(
                        #[trigger] cv[k],
                        e,
                    )) implies #[trigger] expr_map(cv).contains_key(e) by {
                let k = choose|k: int| 0 <= k < cv.len() && listing_entry_holds(#[trigger] cv[k], e);
                if k < cv.len() - 1 {
                    assert(listing_entry_holds(prefix[k], e));
                    assert(expr_map(prefix).contains_key(e));
                } else {
                    assert(es.contains(e));
                }
            }
        } else {
            assert(expr_map(cv) == expr_map(prefix));
            assert forall|e: Seq<char>| #[trigger] expr_map(cv).contains_key(e) implies exists|
                k: int,
            |
                0 <= k < cv.len() && listing_entry_holds(#[trigger] cv[k], e) && cv[k].0
                    == expr_map(cv)[e] by {
                let k = choose|k: int|
                    0 <= k < prefix.len() && listing_entry_holds(#[trigger] prefix[k], e)
                        && prefix[k].0 == expr_map(prefix)[e];
                assert(listing_entry_holds(cv[k], e));
            }
            assert forall|e: Seq<char>|
                (exists|k: int|
                    0 <= k < cv.len() && listing_entry_holds(
                        #[trigger] cv[k],
                        e,
                    )) implies #[trigger] expr_map(cv).contains_key(e) by {
                let k = choose|k: int| 0 <= k < cv.len() && listing_entry_holds(#[trigger] cv[k], e);
                assert(k < cv.len() - 1);
                assert(listing_entry_holds(prefix[k], e));
            }
        }
    }
}

/// The listing entry is `ec`-tagged and its payload holds `e`.
pub open spec fn listing_entry_holds(t: (int, Seq<char>, Seq<char>), e: Seq<char>) -> bool {
    &&& t.1 == ec_tag()
    &&& json_string_list(t.2) matches Some(es) && es.contains(e)
}

/// A listing of the artifacts `ids` of `m` has the expression index
/// `expr_map` of its view.
proof fn lemma_expr_index(
    cv: Seq<(int, Seq<char>, Seq<char>)>,
    ids: Seq<usize>,
    m: crate::model::NetworkModel,
)
    requires
        cv.len() == ids.len(),
        forall|k: int|
            0 <= k < cv.len() ==> #[trigger] cv[k] == (
                ids[k] as int,
                m.items[ids[k] as int].mech,
                m.items[ids[k] as int].data,
            ),
        forall|k: int| 0 <= k < ids.len() ==> 0 <= (#[trigger] ids[k] as int) < m.items.len(),
    ensures
        expr_index_of(expr_map(cv), m, crate::idvec::id_set(ids)),
{
    lemma_expr_map_content(cv);
    let mm = expr_map(cv);
    let vis = crate::idvec::id_set(ids);
    assert forall|e: Seq<char>| #[trigger] mm.contains_key(e) implies expr_known(m, vis, e) by {
        let k = choose|k: int| 0 <= k < cv.len() && listing_entry_holds(#[trigger] cv[k], e);
        let id = ids[k] as int;
        assert(vis.contains(id)) by {
            assert(ids[k] == ids[k]);
        }
        assert(expr_located(m, vis, e, id));
    }
    assert forall|e: Seq<char>| expr_known(m, vis, e) implies #[trigger] mm.contains_key(e) by {
        let id = choose|id: int| expr_located(m, vis, e, id);
        let k = choose|k: int| 0 <= k < ids.len() && ids[k] == id;
        assert(listing_entry_holds(cv[k], e));
    }
    assert forall|e: Seq<char>| #[trigger] mm.contains_key(e) implies expr_located(
        m,
        vis,
        e,
        mm[e],
    ) by {
        let k = choose|k: int|
            0 <= k < cv.len() && listing_entry_holds(#[trigger] cv[k], e) && cv[k].0 == mm[e];
        assert(vis.contains(ids[k] as int)) by {
            assert(ids[k] == ids[k]);
        }
    }
}

/// Descending order by log-likelihood.
pub open spec fn sorted_desc(s: Seq<(Seq<char>, i64)>) -> bool {
    forall|a: int, b: int| 0 <= a <= b < s.len() ==> (#[trigger] s[a]).1 >= (#[trigger] s[b]).1
}

/// The located entries of `sorted` under the expression index `mm`: for each
/// fragment whose expression the index knows, the indexed artifact id paired
/// with the fragment's log-likelihood, in order.
pub open spec fn spec_entries(mm: Map<Seq<char>, int>, sorted: Seq<(Seq<char>, i64)>) -> Seq<
    (usize, i64),
>
    decreases sorted.len(),
{
    if sorted.len() == 0 {
        Seq::empty()
    } else {
        let rest = spec_entries(mm, sorted.drop_last());
        let t = sorted.last();
        if mm.contains_key(t.0) {
            rest.push((mm[t.0] as usize, t.1))
        } else {
            rest
        }
    }
}

/// The normalized counts for the located entries: empty when there are no
/// entries or all log-likelihoods coincide, otherwise one scaled count per
/// entry.
pub open spec fn spec_norm_counts(entries: Seq<(usize, i64)>) -> Seq<(usize, u64)> {
    if entries.len() == 0 || ll_min(entries) == ll_max(entries) {
        Seq::empty()
    } else {
        Seq::new(
            entries.len(),
            |k: int|
                (
                    entries[k].0,
                    norm_count(entries[k].1 as int, ll_min(entries), ll_max(entries)) as u64,
                ),
        )
    }
}

/// Every `ec` artifact of the network carries a payload that parses as a
/// JSON list of strings.
pub open spec fn payloads_parse(m: crate::model::NetworkModel) -> bool {
    forall|i: int|
        0 <= i < m.items.len() && (#[trigger] m.items[i]).mech == ec_tag() ==> json_string_list(
            m.items[i].data,
        ) is Some
}

/// When every `ec` artifact's payload parses, so does every payload of a
/// listing of artifacts.
proof fn lemma_payloads_parse_listing(
    cv: Seq<(int, Seq<char>, Seq<char>)>,
    ids: Seq<usize>,
    m: crate::model::NetworkModel,
)
    requires
        payloads_parse(m),
        cv.len() == ids.len(),
        forall|k: int|
            0 <= k < cv.len() ==> #[trigger] cv[k] == (
                ids[k] as int,
                m.items[ids[k] as int].mech,
                m.items[ids[k] as int].data,
            ),
        forall|k: int| 0 <= k < ids.len() ==> 0 <= (#[trigger] ids[k] as int) < m.items.len(),
    ensures
        all_payloads_parse(cv),
{
    assert forall|k: int|
        0 <= k < cv.len() && (#[trigger] cv[k]).1 == ec_tag() implies json_string_list(cv[k].2)
        is Some by {
        assert(m.items[ids[k] as int].mech == ec_tag());
    }
}

/// A value looked up in an association list built from a context listing is
/// one of the listing's artifact ids.
proof fn lemma_lookup_id_bound(
    assoc: Seq<(String, usize)>,
    m: Map<Seq<char>, int>,
    cv: Seq<(int, Seq<char>, Seq<char>)>,
    e: Seq<char>,
    v: usize,
    n: int,
)
    requires
        assoc_represents(assoc_view(assoc), m),
        m.contains_key(e),
        m[e] == v as int,
        forall|t: int| 0 <= t < assoc.len() ==> id_in_ctx(cv, (#[trigger] assoc[t]).1 as int),
        forall|k: int| 0 <= k < cv.len() ==> (#[trigger] cv[k]).0 < n,
    ensures
        (v as int) < n,
{
    let sv = assoc_view(assoc);
    let i = choose|i: int| 0 <= i < sv.len() && (sv[i]).0 == e;
    assert(m.contains_key(sv[i].0) && m[sv[i].0] == sv[i].1);
    assert(assoc[i].1 as int == v as int);
    assert(id_in_ctx(cv, assoc[i].1 as int));
    let k = choose|k: int| 0 <= k < cv.len() && (#[trigger] cv[k]).0 == assoc[i].1 as int;
    assert(cv[k].0 < n);
}

/// One pass of the synthesis mechanism over a network, with every choice it
/// makes written out. The witnesses: `sorted` is the learned set in
/// descending likelihood; `mm2` and `mm3` are the expression indexes of the
/// artifacts visible when accesses are recorded and when growth is decided;
/// `mid_a` and `mid_b` are the states after the re-orientation and after the
/// recording; `mp` points at a most probable learned fragment and `ida` at
/// the artifact holding it when one is visible.
pub open spec fn mech_trace(
    m0: crate::model::NetworkModel,
    ctx: Context,
    g: Seq<(Seq<char>, Option<i64>)>,
    m1: crate::model::NetworkModel,
    ok: bool,
    sorted: Seq<(Seq<char>, i64)>,
    mm2: Map<Seq<char>, int>,
    mm3: Map<Seq<char>, int>,
    mid_a: crate::model::NetworkModel,
    mid_b: crate::model::NetworkModel,
    mp: int,
    ida: int,
) -> bool {
    let learned = spec_learned(g);
    let vis1 = crate::idvec::id_set(ctx.items@).union(crate::idvec::id_set(ctx.frontier@));
    let oriented = mid_a.epochs.len() != m0.epochs.len();
    let vis2 = if oriented {
        mid_a.epochs.last().ctx
    } else {
        crate::idvec::id_set(ctx.items@)
    };
    let erec = if oriented {
        m0.epochs.len() as int
    } else {
        ctx.current_epoch as int
    };
    let vis3 = if oriented {
        vis2.union(crate::model::frontier_set(m0.items, vis2))
    } else {
        vis1
    };
    let selection = spec_new_combs(sorted, mm3, EC_MAX_IN_ARTIFACT as nat);
    // the learned set, in descending likelihood
    &&& learned.len() > 0
    &&& sorted_desc(sorted)
    &&& sorted.to_multiset() == learned.to_multiset()
    // re-orientation toward a most probable fragment, when one is visible
    &&& 0 <= mp < learned.len()
    &&& forall|t: int| 0 <= t < learned.len() ==> learned[mp].1 >= (#[trigger] learned[t]).1
    &&& (if expr_known(m0, vis1, learned[mp].0) {
        expr_located(m0, vis1, learned[mp].0, ida) && crate::model::orient_post(
            m0,
            mid_a,
            ctx.initial_epoch as int,
            ida,
        )
    } else {
        mid_a == m0
    })
    // normalized accesses for the located fragments, at the current epoch
    &&& expr_index_of(mm2, m0, vis2)
    &&& mid_b == crate::model::spec_record_counts(
        mid_a,
        erec,
        spec_norm_counts(spec_entries(mm2, sorted)),
    )
    // growth with the selected new fragments, at the antecedent horizon
    &&& expr_index_of(mm3, m0, vis3)
    &&& (selection.len() == 0 ==> ok && m1 == mid_b)
    &&& (selection.len() > 0 && mid_b.n() < mid_b.max_size ==> ok && crate::model::grow_post(
        mid_b,
        m1,
        ctx.mech@,
        json_of_string_list(selection),
        ctx.initial_epoch as int,
    ))
    &&& (selection.len() > 0 && mid_b.n() >= mid_b.max_size ==> !ok && m1 == mid_b)
}

/// What one pass of the synthesis mechanism does, for some resolution of the
/// likelihood ties and of the listing order behind the expression indexes.
pub open spec fn mech_post(
    m0: crate::model::NetworkModel,
    ctx: Context,
    g: Seq<(Seq<char>, Option<i64>)>,
    m1: crate::model::NetworkModel,
    ok: bool,
) -> bool {
    exists|
        sorted: Seq<(Seq<char>, i64)>,
        mm2: Map<Seq<char>, int>,
        mm3: Map<Seq<char>, int>,
        mid_a: crate::model::NetworkModel,
        mid_b: crate::model::NetworkModel,
        mp: int,
        ida: int,
    |
        #[trigger] mech_trace(m0, ctx, g, m1, ok, sorted, mm2, mm3, mid_a, mid_b, mp, ida)
}

/// Applies one synthesis result to the network through the given context,
/// as the synthesis mechanism does once the engine has answered: re-orient
/// toward the most probable learned fragment when it is visible, record
/// normalized access counts for the learned fragments found in the context,
/// and grow one artifact carrying the most probable new fragments. A result
/// that teaches nothing leaves the network untouched; otherwise the effect is
/// `mech_post`. Failure comes only from a payload that does not parse —
/// excluded whenever every `ec` payload of the network parses — or from a
/// full network.
pub fn mech_on_results(net: &mut Network, ctx: Context, results: &Results) -> (r: Result<
    (),
    EcError,
>)
    requires
        old(net).wf(),
        ctx.valid_for(old(net)@),
        results.wf(),
    ensures
        final(net).wf(),
        final(net)@.extends(old(net)@),
        final(net)@.epochs.len() <= old(net)@.epochs.len() + 2,
        final(net)@.items.len() <= old(net)@.items.len() + 1,
        spec_learned(grammar_view(results.grammar@)).len() == 0 ==> r is Ok && final(net)@ == old(
            net,
        )@,
        spec_learned(grammar_view(results.grammar@)).len() > 0 && (r is Ok || r == Err::<
            (),
            EcError,
        >(EcError::NetworkFull)) ==> mech_post(
            old(net)@,
            ctx,
            grammar_view(results.grammar@),
            final(net)@,
            r is Ok,
        ),
        payloads_parse(old(net)@) ==> r != Err::<(), EcError>(EcError::BadPayload),
{
    let ghost m0 = net@;
    let ghost g = grammar_view(results.grammar@);
    let ghost vis1 = crate::idvec::id_set(ctx.items@).union(crate::idvec::id_set(ctx.frontier@));
    proof {
        lemma_extends_refl(m0);
    }
    let learned = learned_of(results);
    if learned.len() == 0 {
        proof {
            assert(spec_learned(grammar_view(results.grammar@)).len() == 0);
        }
        return Ok(());
    }
    proof {
        assert(pair_view(learned@).len() == learned@.len());
        assert forall|k: int|
            0 <= k < grammar_view(results.grammar@).len() implies ((#[trigger] grammar_view(
            results.grammar@,
        )[k]).1 matches Some(v) ==> -LL_BOUND <= v <= LL_BOUND) by {
            assert(grammar_view(results.grammar@)[k] == (results.grammar@[k].expr@,
            results.grammar@[k].log_likelihood));
            assert(results.grammar@[k].wf());
        }
        lemma_learned_bounded(grammar_view(results.grammar@));
    }

    // re-orient toward the most probable learned fragment, if it is visible
    let mp = most_probable(&learned);
    let target_expr = learned[mp].0.clone();
    let explored = ctx.explore(net);
    proof {
        assert forall|k: int|
            0 <= k < ctx_view(explored@).len() implies (#[trigger] ctx_view(explored@)[k]).0
            < net@.n() by {
            assert(ctx_view(explored@)[k].0 == explored@[k].0 as int);
            if k < ctx.items@.len() {
                assert(explored@[k].0 == (ctx.items@ + ctx.frontier@)[k]);
                assert((ctx.items@ + ctx.frontier@)[k] == ctx.items@[k]);
            } else {
                assert(explored@[k].0 == (ctx.items@ + ctx.frontier@)[k]);
                assert((ctx.items@ + ctx.frontier@)[k] == ctx.frontier@[k - ctx.items@.len()]);
            }
        }
    }
    let ghost ids1 = ctx.items@ + ctx.frontier@;
    let ghost m_map = expr_map(ctx_view(explored@));
    proof {
        assert forall|k: int|
            0 <= k < ctx_view(explored@).len() implies #[trigger] ctx_view(explored@)[k] == (
            ids1[k] as int,
            m0.items[ids1[k] as int].mech,
            m0.items[ids1[k] as int].data,
        ) by {
            assert(ctx_view(explored@)[k] == (explored@[k].0 as int, explored@[k].1@,
            explored@[k].2@));
            assert(explored@[k].0 == ids1[k]);
        }
        assert forall|k: int| 0 <= k < ids1.len() implies 0 <= (#[trigger] ids1[k] as int)
            < m0.items.len() by {
            if k < ctx.items@.len() {
                assert(ids1[k] == ctx.items@[k]);
            } else {
                assert(ids1[k] == ctx.frontier@[k - ctx.items@.len()]);
            }
        }
        lemma_expr_index(ctx_view(explored@), ids1, m0);
        crate::idvec::lemma_id_set_concat(ctx.items@, ctx.frontier@);
        assert(crate::idvec::id_set(ids1) == vis1);
        assert(expr_index_of(m_map, m0, vis1));
    }
    let assoc = match exprs_in_context(&explored) {
        Err(e) => {
            proof {
                if payloads_parse(m0) {
                    lemma_payloads_parse_listing(ctx_view(explored@), ids1, m0);
                }
            }
            return Err(e);
        },
        Ok(a) => a,
    };
    let found = lookup_expr(&assoc, &target_expr, Ghost(m_map));
    let ctx2: Context;
    match found {
        Some(idt) => {
            proof {
                lemma_lookup_id_bound(
                    assoc@,
                    m_map,
                    ctx_view(explored@),
                    target_expr@,
                    idt,
                    net@.n(),
                );
            }
            ctx.orient(net, idt);
            proof {
                lemma_valid_for_extends(ctx, m0, net@);
            }
            ctx2 = ctx.update(net);
        },
        None => {
            ctx2 = ctx;
        },
    }
    let ghost mid_a = net@;
    let ghost ida: int = match found {
        Some(i) => i as int,
        None => 0,
    };
    let ghost oriented = mid_a.epochs.len() != m0.epochs.len();
    let ghost vis2 = if oriented {
        mid_a.epochs.last().ctx
    } else {
        crate::idvec::id_set(ctx.items@)
    };
    proof {
        assert(net@.extends(m0));
        assert(ctx2.valid_for(net@));
        assert(spec_learned(g) == pair_view(learned@));
        assert(spec_learned(g)[mp as int].0 == target_expr@) by {
            assert(pair_view(learned@)[mp as int] == (learned@[mp as int].0@,
            learned@[mp as int].1));
        }
        assert forall|t: int|
            0 <= t < spec_learned(g).len() implies spec_learned(g)[mp as int].1 >= (
        #[trigger] spec_learned(g)[t]).1 by {
            assert(pair_view(learned@)[t] == (learned@[t].0@, learned@[t].1));
            assert(pair_view(learned@)[mp as int] == (learned@[mp as int].0@,
            learned@[mp as int].1));
        }
        if found is Some {
            assert(m_map.contains_key(target_expr@));
            assert(expr_known(m0, vis1, spec_learned(g)[mp as int].0));
            assert(expr_located(m0, vis1, spec_learned(g)[mp as int].0, ida));
            assert(crate::model::orient_post(m0, mid_a, ctx.initial_epoch as int, ida));
            assert(oriented);
        } else {
            assert(!m_map.contains_key(target_expr@));
            assert(!expr_known(m0, vis1, spec_learned(g)[mp as int].0));
            assert(mid_a == m0);
            assert(!oriented);
        }
        assert(id_set(ctx2.items@) == vis2) by {
            if oriented {
                assert(id_set(ctx2.items@) =~= mid_a.epochs.last().ctx);
            } else {
                assert(ctx2 == ctx);
            }
        }
        assert(ctx2.current_epoch as int == (if oriented {
            m0.epochs.len() as int
        } else {
            ctx.current_epoch as int
        }));
        assert(ctx2.initial_epoch == ctx.initial_epoch);
        assert(ctx2.mech@ == ctx.mech@);
        assert(id_set(ctx2.frontier@) == (if oriented {
            crate::model::frontier_set(m0.items, vis2)
        } else {
            id_set(ctx.frontier@)
        })) by {
            if oriented {
                assert(id_set(ctx2.frontier@) =~= crate::model::frontier_set(
                    mid_a.items,
                    mid_a.epochs.last().ctx,
                ));
                assert(mid_a.items == m0.items);
            } else {
                assert(ctx2 == ctx);
            }
        }
        assert(mid_a.items.len() == m0.items.len());
    }

    // record accesses proportional to probability
    let learned_sorted = sort_by_ll_desc(learned);
    proof {
        assert forall|k: int|
            0 <= k < learned_sorted@.len() implies -LL_BOUND <= (#[trigger] learned_sorted@[k]).1
            <= LL_BOUND by {
            assert(pair_view(learned_sorted@)[k] == (learned_sorted@[k].0@, learned_sorted@[k].1));
            let lv = pair_view(learned_sorted@);
            assert(spec_learned(grammar_view(results.grammar@)).contains(lv[k]));
            let u = choose|u: int|
                0 <= u < spec_learned(grammar_view(results.grammar@)).len() && #[trigger]
                spec_learned(grammar_view(results.grammar@))[u] == lv[k];
        }
    }
    let listing = ctx2.get(net);
    proof {
        assert forall|k: int|
            0 <= k < ctx_view(listing@).len() implies (#[trigger] ctx_view(listing@)[k]).0
            < net@.n() by {
            assert(ctx_view(listing@)[k].0 == listing@[k].0 as int);
            assert(listing@[k].0 == ctx2.items@[k]);
        }
    }
    let ghost m2_map = expr_map(ctx_view(listing@));
    let ghost n_at_listing = net@.n();
    proof {
        assert forall|k: int|
            0 <= k < ctx_view(listing@).len() implies #[trigger] ctx_view(listing@)[k] == (
            ctx2.items@[k] as int,
            m0.items[ctx2.items@[k] as int].mech,
            m0.items[ctx2.items@[k] as int].data,
        ) by {
            assert(ctx_view(listing@)[k] == (listing@[k].0 as int, listing@[k].1@, listing@[k].2@));
            assert(listing@[k].0 == ctx2.items@[k]);
            assert(net@.items[ctx2.items@[k] as int].mech == m0.items[ctx2.items@[k] as int].mech);
            assert(net@.items[ctx2.items@[k] as int].data == m0.items[ctx2.items@[k] as int].data);
        }
        lemma_expr_index(ctx_view(listing@), ctx2.items@, m0);
        assert(expr_index_of(m2_map, m0, vis2));
        assert(n_at_listing == m0.items.len());
    }
    let assoc2 = match exprs_in_context(&listing) {
        Err(e) => {
            proof {
                if payloads_parse(m0) {
                    lemma_payloads_parse_listing(ctx_view(listing@), ctx2.items@, m0);
                }
            }
            return Err(e);
        },
        Ok(a) => a,
    };
    let ghost lv = pair_view(learned_sorted@);
    let mut entries: Vec<(usize, i64)> = Vec::new();
    let n_learned = learned_sorted.len();
    let mut k: usize = 0;
    proof {
        assert(lv.take(0) =~= Seq::<(Seq<char>, i64)>::empty());
        assert(entries@ == spec_entries(m2_map, lv.take(0)));
    }
    while k < n_learned
        invariant
            n_learned == learned_sorted@.len(),
            k <= n_learned,
            lv == pair_view(learned_sorted@),
            assoc_represents(assoc_view(assoc2@), m2_map),
            forall|t: int|
                0 <= t < assoc2@.len() ==> id_in_ctx(
                    ctx_view(listing@),
                    (#[trigger] assoc2@[t]).1 as int,
                ),
            forall|t: int|
                0 <= t < ctx_view(listing@).len() ==> (#[trigger] ctx_view(listing@)[t]).0
                    < n_at_listing,
            forall|t: int|
                0 <= t < learned_sorted@.len() ==> -LL_BOUND <= (
                #[trigger] learned_sorted@[t]).1 <= LL_BOUND,
            forall|t: int| 0 <= t < entries@.len() ==> (#[trigger] entries@[t]).0 < n_at_listing,
            forall|t: int|
                0 <= t < entries@.len() ==> -LL_BOUND <= (#[trigger] entries@[t]).1 <= LL_BOUND,
            entries@ == spec_entries(m2_map, lv.take(k as int)),
        decreases n_learned - k,
    {
        proof {
            assert(lv.take(k + 1).drop_last() =~= lv.take(k as int));
            assert(lv.take(k + 1).last() == lv[k as int]);
            assert(lv[k as int] == (learned_sorted@[k as int].0@, learned_sorted@[k as int].1));
        }
        let e = &learned_sorted[k].0;
        match lookup_expr(&assoc2, e, Ghost(m2_map)) {
            Some(id) => {
                proof {
                    lemma_lookup_id_bound(
                        assoc2@,
                        m2_map,
                        ctx_view(listing@),
                        e@,
                        id,
                        n_at_listing,
                    );
                }
                entries.push((id, learned_sorted[k].1));
                proof {
                    assert(m2_map.contains_key(lv[k as int].0));
                    assert((m2_map[lv[k as int].0] as usize) == id);
                    assert(entries@ =~= spec_entries(m2_map, lv.take(k + 1)));
                }
            },
            None => {
                proof {
                    assert(!m2_map.contains_key(lv[k as int].0));
                    assert(entries@ =~= spec_entries(m2_map, lv.take(k + 1)));
                }
            },
        }
        k = k + 1;
    }
    proof {
        assert(lv.take(n_learned as int) =~= lv);
        assert(entries@ == spec_entries(m2_map, lv));
    }
    let counts = access_counts(&entries);
    let ghost erec = ctx2.current_epoch as int;
    proof {
        assert(counts@ == spec_norm_counts(entries@));
        assert forall|t: int| 0 <= t < counts@.len() implies (#[trigger] counts@[t]).0
            < n_at_listing by {
            assert(entries@.len() > 0 && ll_min(entries@) != ll_max(entries@));
            assert(counts@[t].0 == entries@[t].0);
        }
        assert(net@ == crate::model::spec_record_counts(mid_a, erec, counts@.take(0)));
    }
    let n_counts = counts.len();
    let mut k2: usize = 0;
    while k2 < n_counts
        invariant
            n_counts == counts@.len(),
            k2 <= n_counts,
            net.wf(),
            net@.extends(m0),
            ctx2.valid_for(net@),
            n_at_listing <= net@.n(),
            net@.epochs.len() == mid_a.epochs.len(),
            net@.items.len() == mid_a.items.len(),
            erec == ctx2.current_epoch as int,
            net@ == crate::model::spec_record_counts(mid_a, erec, counts@.take(k2 as int)),
            forall|t: int| 0 <= t < counts@.len() ==> (#[trigger] counts@[t]).0 < n_at_listing,
        decreases n_counts - k2,
    {
        proof {
            assert(counts@.take(k2 + 1).drop_last() =~= counts@.take(k2 as int));
            assert(counts@.take(k2 + 1).last() == counts@[k2 as int]);
        }
        let ghost before = net@;
        let id = counts[k2].0;
        let cnt = counts[k2].1;
        let tot = net.count_of(id, 0);
        if cnt <= u64::MAX - tot {
            ctx2.add_item_count(net, id, cnt);
            proof {
                lemma_extends_trans(net@, before, m0);
                lemma_valid_for_extends(ctx2, before, net@);
                assert(net@ == crate::model::spec_record_counts(mid_a, erec, counts@.take(k2 + 1)));
            }
        } else {
            proof {
                assert(net@ == crate::model::spec_record_counts(mid_a, erec, counts@.take(k2 + 1)));
            }
        }
        k2 = k2 + 1;
    }
    let ghost mid_b = net@;
    proof {
        assert(counts@.take(n_counts as int) =~= counts@);
        assert(mid_b == crate::model::spec_record_counts(
            mid_a,
            erec,
            spec_norm_counts(spec_entries(m2_map, lv)),
        ));
    }

    // grow one artifact with the most probable new fragments
    let explored2 = ctx2.explore(net);
    let ghost vis3 = if oriented {
        vis2.union(crate::model::frontier_set(m0.items, vis2))
    } else {
        vis1
    };
    let ghost ids3 = ctx2.items@ + ctx2.frontier@;
    let ghost m3_map = expr_map(ctx_view(explored2@));
    proof {
        assert forall|k2a: int|
            0 <= k2a < ctx_view(explored2@).len() implies #[trigger] ctx_view(explored2@)[k2a]
            == (ids3[k2a] as int, m0.items[ids3[k2a] as int].mech, m0.items[ids3[k2a] as int].data) by {
            assert(ctx_view(explored2@)[k2a] == (explored2@[k2a].0 as int, explored2@[k2a].1@,
            explored2@[k2a].2@));
            assert(explored2@[k2a].0 == ids3[k2a]);
            if k2a < ctx2.items@.len() {
                assert(ids3[k2a] == ctx2.items@[k2a]);
            } else {
                assert(ids3[k2a] == ctx2.frontier@[k2a - ctx2.items@.len()]);
            }
            assert((ids3[k2a] as int) < m0.items.len());
            assert(net@.items[ids3[k2a] as int].mech == m0.items[ids3[k2a] as int].mech);
            assert(net@.items[ids3[k2a] as int].data == m0.items[ids3[k2a] as int].data);
        }
        assert forall|k2a: int| 0 <= k2a < ids3.len() implies 0 <= (#[trigger] ids3[k2a] as int)
            < m0.items.len() by {
            if k2a < ctx2.items@.len() {
                assert(ids3[k2a] == ctx2.items@[k2a]);
            } else {
                assert(ids3[k2a] == ctx2.frontier@[k2a - ctx2.items@.len()]);
            }
        }
        lemma_expr_index(ctx_view(explored2@), ids3, m0);
        crate::idvec::lemma_id_set_concat(ctx2.items@, ctx2.frontier@);
        assert(crate::idvec::id_set(ids3) == vis3);
        assert(expr_index_of(m3_map, m0, vis3));
    }
    let assoc3 = match exprs_in_context(&explored2) {
        Err(e) => {
            proof {
                if payloads_parse(m0) {
                    lemma_payloads_parse_listing(ctx_view(explored2@), ids3, m0);
                }
            }
            return Err(e);
        },
        Ok(a) => a,
    };
    let new_combs = select_new_combs(&learned_sorted, &assoc3, Ghost(m3_map));
    let ghost selection = spec_new_combs(lv, m3_map, EC_MAX_IN_ARTIFACT as nat);
    proof {
        assert(new_combs@.map_values(|s: String| s@) == selection);
        assert(new_combs@.len() == selection.len());
        assert(sorted_desc(lv)) by {
            assert forall|a: int, b: int| 0 <= a <= b < lv.len() implies (#[trigger] lv[a]).1 >= (
            #[trigger] lv[b]).1 by {
                assert(lv[a] == (learned_sorted@[a].0@, learned_sorted@[a].1));
                assert(lv[b] == (learned_sorted@[b].0@, learned_sorted@[b].1));
            }
        }
        assert(lv.to_multiset() == spec_learned(g).to_multiset());
    }
    if new_combs.len() > 0 {
        let payload = render_string_list(&new_combs);
        let ghost before = net@;
        let grown = ctx2.grow(net, payload);
        proof {
            lemma_extends_trans(net@, before, m0);
        }
        match grown {
            Ok(_) => {
                proof {
                    assert(crate::model::grow_post(
                        mid_b,
                        net@,
                        ctx.mech@,
                        json_of_string_list(selection),
                        ctx.initial_epoch as int,
                    ));
                    assert(mech_trace(
                        m0,
                        ctx,
                        g,
                        net@,
                        true,
                        lv,
                        m2_map,
                        m3_map,
                        mid_a,
                        mid_b,
                        mp as int,
                        ida,
                    ));
                    assert(mech_post(m0, ctx, g, net@, true));
                }
            },
            Err(_) => {
                proof {
                    assert(net@ == mid_b);
                    assert(mech_trace(
                        m0,
                        ctx,
                        g,
                        net@,
                        false,
                        lv,
                        m2_map,
                        m3_map,
                        mid_a,
                        mid_b,
                        mp as int,
                        ida,
                    ));
                    assert(mech_post(m0, ctx, g, net@, false));
                }
                return Err(EcError::NetworkFull);
            },
        }
    } else {
        proof {
            assert(net@ == mid_b);
            assert(mech_trace(
                m0,
                ctx,
                g,
                net@,
                true,
                lv,
                m2_map,
                m3_map,
                mid_a,
                mid_b,
                mp as int,
                ida,
            ));
            assert(mech_post(m0, ctx, g, net@, true));
        }
    }
    Ok(())
}

} // verus!
