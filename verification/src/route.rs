//! Request routing of the run viewer: which resource a request path names.
use vstd::prelude::*;

verus! {

/// What a request path asks for.
#[derive(PartialEq, Eq, Debug)]
pub enum Route {
    /// The viewer page.
    Index,
    /// The list of slice times.
    Slices,
    /// A file of the run, by its path relative to the run directory.
    Data(Vec<u8>),
    /// A data path that tries to leave the run directory: it climbs with `..`, uses a
    /// backslash, or is absolute (a leading `/`, or a `:` as in a drive prefix).
    Forbidden,
    NotFound,
}

/// What a request path asks for, with the data path as a sequence of bytes.
pub enum RouteSpec {
    Index,
    Slices,
    Data(Seq<u8>),
    Forbidden,
    NotFound,
}

impl View for Route {
    type V = RouteSpec;

    open spec fn view(&self) -> RouteSpec {
        match self {
            Route::Index => RouteSpec::Index,
            Route::Slices => RouteSpec::Slices,
            Route::Data(rel) => RouteSpec::Data(rel@),
            Route::Forbidden => RouteSpec::Forbidden,
            Route::NotFound => RouteSpec::NotFound,
        }
    }
}

/// The path without its query string: everything before the first `?`.
pub open spec fn strip_query(p: Seq<u8>) -> Seq<u8>
    decreases p.len(),
{
    if p.len() == 0 {
        p
    } else if p[0] == 63u8 {
        Seq::empty()
    } else {
        seq![p[0]] + strip_query(p.drop_first())
    }
}

/// `p` holds two consecutive dots somewhere.
pub open spec fn has_dotdot(p: Seq<u8>) -> bool {
    exists|i: int| 0 <= i < p.len() - 1 && #[trigger] p[i] == 46u8 && p[i + 1] == 46u8
}

/// `p` holds a backslash somewhere.
pub open spec fn has_backslash(p: Seq<u8>) -> bool {
    p.contains(92u8)
}

/// `p` is a relative path: it neither starts with `/` nor holds a `:` (a drive prefix).
pub open spec fn is_relative(p: Seq<u8>) -> bool {
    &&& !(p.len() > 0 && p[0] == 47u8)
    &&& !p.contains(58u8)
}

/// The bytes of `/`, `/index.html`, `/slices.json` and `/data/`.
pub open spec fn lit_root() -> Seq<u8> {
    seq![47u8]
}

pub open spec fn lit_index() -> Seq<u8> {
    seq![47u8, 105, 110, 100, 101, 120, 46, 104, 116, 109, 108]
}

pub open spec fn lit_slices() -> Seq<u8> {
    seq![47u8, 115, 108, 105, 99, 101, 115, 46, 106, 115, 111, 110]
}

pub open spec fn lit_data() -> Seq<u8> {
    seq![47u8, 100, 97, 116, 97, 47]
}

/// The route of a request path.
pub open spec fn spec_route(p: Seq<u8>) -> RouteSpec {
    let q = strip_query(p);
    if q == lit_root() || q == lit_index() {
        RouteSpec::Index
    } else if q == lit_slices() {
        RouteSpec::Slices
    } else if q.len() >= 6 && q.take(6) == lit_data() {
        let rel = q.skip(6);
        if has_dotdot(rel) || has_backslash(rel) || !is_relative(rel) {
            RouteSpec::Forbidden
        } else {
            RouteSpec::Data(rel)
        }
    } else {
        RouteSpec::NotFound
    }
}

proof fn lemma_strip_query_prefix(p: Seq<u8>, i: int)
    requires
        0 <= i <= p.len(),
        forall|j: int| 0 <= j < i ==> p[j] != 63u8,
    ensures
        strip_query(p) == p.take(i) + strip_query(p.skip(i)),
    decreases i,
{
    if i > 0 {
        lemma_strip_query_prefix(p.drop_first(), i - 1);
        assert(p.drop_first().skip(i - 1) =~= p.skip(i));
        assert(p.take(i) =~= seq![p[0]] + p.drop_first().take(i - 1));
    } else {
        assert(p.take(0) =~= Seq::<u8>::empty());
        assert(p.skip(0) =~= p);
    }
}

fn eq_lit(q: &Vec<u8>, lit: &[u8]) -> (r: bool)
    ensures
        r == (q@ == lit@),
{
    if q.len() != lit.len() {
        return false;
    }
    let mut i: usize = 0;
    while i < q.len()
        invariant
            q@.len() == lit@.len(),
            i <= q@.len(),
            forall|j: int| 0 <= j < i ==> q@[j] == lit@[j],
        decreases q@.len() - i,
    {
        if q[i] != lit[i] {
            return false;
        }
        i = i + 1;
    }
    assert(q@ =~= lit@);
    true
}

fn holds_byte(v: &Vec<u8>, b: u8) -> (r: bool)
    ensures
        r == v@.contains(b),
{
    let mut i: usize = 0;
    while i < v.len()
        invariant
            i <= v@.len(),
            forall|j: int| 0 <= j < i ==> v@[j] != b,
        decreases v@.len() - i,
    {
        if v[i] == b {
            assert(v@[i as int] == b);
            return true;
        }
        i = i + 1;
    }
    false
}

/// Route a request path (the second word of the request line).
pub fn route(path: &[u8]) -> (r: Route)
    ensures
        r@ == spec_route(path@),
{
    let mut q: Vec<u8> = Vec::new();
    let mut i: usize = 0;
    while i < path.len()
        invariant
            i <= path@.len(),
            q@ == path@.take(i as int),
            forall|j: int| 0 <= j < i ==> path@[j] != 63u8,
        ensures
            i <= path@.len(),
            q@ == path@.take(i as int),
            forall|j: int| 0 <= j < i ==> path@[j] != 63u8,
            i == path@.len() || path@[i as int] == 63u8,
        decreases path@.len() - i,
    {
        if path[i] == 63u8 {
            break;
        }
        q.push(path[i]);
        proof {
            assert(path@.take(i + 1) =~= path@.take(i as int).push(path@[i as int]));
        }
        i = i + 1;
    }
    proof {
        lemma_strip_query_prefix(path@, i as int);
        if i < path@.len() {
            assert(path@.skip(i as int)[0] == 63u8);
            assert(strip_query(path@.skip(i as int)) =~= Seq::<u8>::empty());
        } else {
            assert(path@.skip(i as int) =~= Seq::<u8>::empty());
        }
        assert(strip_query(path@) =~= q@);
    }
    let root: [u8; 1] = [47u8];
    let index: [u8; 11] = [47u8, 105u8, 110u8, 100u8, 101u8, 120u8, 46u8, 104u8, 116u8, 109u8, 108u8];
    let slices: [u8; 12] = [47u8, 115u8, 108u8, 105u8, 99u8, 101u8, 115u8, 46u8, 106u8, 115u8, 111u8, 110u8];
    let data: [u8; 6] = [47u8, 100u8, 97u8, 116u8, 97u8, 47u8];
    proof {
        assert(root@ =~= lit_root());
        assert(index@ =~= lit_index());
        assert(slices@ =~= lit_slices());
        assert(data@ =~= lit_data());
    }
    if eq_lit(&q, &root) || eq_lit(&q, &index) {
        return Route::Index;
    }
    if eq_lit(&q, &slices) {
        return Route::Slices;
    }
    if q.len() >= 6 {
        let mut head: Vec<u8> = Vec::new();
        let mut k: usize = 0;
        while k < 6
            invariant
                k <= 6,
                q@.len() >= 6,
                head@ == q@.take(k as int),
            decreases 6 - k,
        {
            head.push(q[k]);
            proof {
                assert(q@.take(k + 1) =~= q@.take(k as int).push(q@[k as int]));
            }
            k = k + 1;
        }
        if eq_lit(&head, &data) {
            let mut rel: Vec<u8> = Vec::new();
            let mut bad = false;
            let mut j: usize = 6;
            while j < q.len()
                invariant
                    6 <= j <= q@.len(),
                    rel@ == q@.skip(6).take(j - 6),
                    bad == (has_dotdot(q@.skip(6).take(j - 6)) || has_backslash(q@.skip(6).take(j - 6))),
                decreases q@.len() - j,
            {
                let b = q[j];
                let ghost prev = rel@;
                let ghost bad0 = bad;
                let ghost cond = b == 92u8 || (b == 46u8 && j > 6 && q@[j - 1] == 46u8);
                if b == 92u8 || (b == 46u8 && j > 6 && q[j - 1] == 46u8) {
                    bad = true;
                }
                rel.push(b);
                proof {
                    let s = q@.skip(6);
                    let t = s.take(j + 1 - 6);
                    assert(t =~= prev.push(b));
                    assert(rel@ =~= t);
                    if has_dotdot(prev) {
                        let w = choose|w: int| 0 <= w < prev.len() - 1 && #[trigger] prev[w] == 46u8 && prev[w + 1] == 46u8;
                        assert(t[w] == 46u8 && t[w + 1] == 46u8);
                    }
                    if has_backslash(prev) {
                        let w = choose|w: int| 0 <= w < prev.len() && prev[w] == 92u8;
                        assert(t[w] == 92u8);
                    }
                    if b == 46u8 && j > 6 && q@[j - 1] == 46u8 {
                        assert(t[j - 7] == 46u8 && t[j - 6] == 46u8);
                    }
                    if b == 92u8 {
                        assert(t[t.len() - 1] == 92u8);
                    }
                    if has_dotdot(t) {
                        let w = choose|w: int| 0 <= w < t.len() - 1 && #[trigger] t[w] == 46u8 && t[w + 1] == 46u8;
                        if w < t.len() - 2 {
                            assert(prev[w] == 46u8 && prev[w + 1] == 46u8);
                        } else {
                            assert(t[w] == q@[j - 1] && t[w + 1] == b);
                        }
                    }
                    if has_backslash(t) {
                        let w = choose|w: int| 0 <= w < t.len() && t[w] == 92u8;
                        if w < t.len() - 1 {
                            assert(prev[w] == 92u8);
                        }
                    }
                    assert(bad0 == (has_dotdot(prev) || has_backslash(prev)));
                    assert(bad == (bad0 || cond));
                    assert((has_dotdot(t) || has_backslash(t)) == (has_dotdot(prev) || has_backslash(prev) || cond));
                }
                j = j + 1;
            }
            proof {
                assert(q@.skip(6).take(q@.len() - 6) =~= q@.skip(6));
            }
            if bad {
                return Route::Forbidden;
            }
            if rel.len() > 0 && rel[0] == 47u8 {
                return Route::Forbidden;
            }
            if holds_byte(&rel, 58u8) {
                return Route::Forbidden;
            }
            return Route::Data(rel);
        }
    }
    Route::NotFound
}

/// Law of the viewer: a data file is only ever served for a path under `/data/` whose remainder
/// is relative (no leading `/`, no `:`), never climbs with `..` and uses no backslash, so joined to
/// the run directory it names a file inside it.
pub proof fn lemma_data_routes_stay_inside(p: Seq<u8>)
    ensures
        spec_route(p) is Data ==> {
            let q = strip_query(p);
            &&& q.take(6) == lit_data()
            &&& spec_route(p)->Data_0 == q.skip(6)
            &&& is_relative(q.skip(6))
            &&& !has_dotdot(q.skip(6))
            &&& !has_backslash(q.skip(6))
        },
{
}

} // verus!
