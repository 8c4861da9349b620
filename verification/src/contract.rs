//! Tensor shape contracts of kernels.
//!
//! A kernel names the axes of each tensor it takes. A call is accepted when every
//! tensor has the rank that is asked for, and axes of one name have one extent.
use crate::tensor::TensorShape;
use crate::text::{decimal, push_decimal};
use vstd::prelude::*;
use vstd::string::StringExecFns;

verus! {

/// Tensor parameters of the kernels.
#[derive(Clone, Copy, PartialEq, Eq, Structural, Debug)]
pub enum Param {
    Att,
    Dst,
    Embed,
    Hb,
    Hb2,
    K,
    KProj,
    KeyCache,
    O,
    Partial,
    Q,
    Src,
    ValueCache,
    W,
    Weight,
    X,
    Xb,
    Xout,
}

/// Names of axes.
#[derive(Clone, Copy, PartialEq, Eq, Structural, Debug)]
pub enum Dim {
    D,
    Dim,
    Head,
    Hidden,
    KvDim,
    KvHeads,
    N,
    QHeads,
    SeqLen,
    Slot,
    Splits,
    Vocab,
}

/// The named axes of one parameter, outermost first.
#[derive(Clone, Copy, PartialEq, Eq, Structural, Debug)]
pub enum Axes {
    A1(Dim),
    A2(Dim, Dim),
    A3(Dim, Dim, Dim),
}

/// A tensor given for a parameter.
#[derive(Clone, Copy, PartialEq, Eq, Structural, Debug)]
pub struct Bound {
    pub param: Param,
    pub axes: Axes,
    pub shape: TensorShape,
}

/// An axis name and the extent it stands for.
#[derive(Clone, Copy, PartialEq, Eq, Structural, Debug)]
pub struct Extent {
    pub dim: Dim,
    pub size: u32,
}

/// Why a kernel refused its tensors.
#[derive(Clone, Copy, PartialEq, Eq, Structural, Debug)]
pub enum ContractError {
    /// The tensor for `param` has another rank than the kernel asks for.
    Rank { param: Param, expected: u32, found: u32 },
    /// An axis of `param` has another extent than an earlier axis of the same name.
    Extent { param: Param, dim: Dim, expected: u32, found: u32 },
}

impl Axes {
    pub open spec fn names(self) -> Seq<Dim> {
        match self {
            Axes::A1(a) => seq![a],
            Axes::A2(a, b) => seq![a, b],
            Axes::A3(a, b, c) => seq![a, b, c],
        }
    }

    fn rank(self) -> (r: usize)
        ensures
            r == self.names().len(),
    {
        match self {
            Axes::A1(_) => 1,
            Axes::A2(_, _) => 2,
            Axes::A3(_, _, _) => 3,
        }
    }

    fn name(self, axis: usize) -> (r: Dim)
        requires
            axis < self.names().len(),
        ensures
            r == self.names()[axis as int],
    {
        match self {
            Axes::A1(a) => a,
            Axes::A2(a, b) => if axis == 0 {
                a
            } else {
                b
            },
            Axes::A3(a, b, c) => if axis == 0 {
                a
            } else if axis == 1 {
                b
            } else {
                c
            },
        }
    }
}

/// The extent that `dim` already stands for.
pub open spec fn known(env: Seq<Extent>, dim: Dim) -> Option<u32>
    decreases env.len(),
{
    if env.len() == 0 {
        None
    } else if env.last().dim == dim {
        Some(env.last().size)
    } else {
        known(env.drop_last(), dim)
    }
}

/// Takes in the axes of `b` from `axis` on: the extents known after them, or the
/// first one that contradicts what is known.
pub open spec fn bind(env: Seq<Extent>, b: Bound, axis: int) -> Result<Seq<Extent>, ContractError>
    decreases b.axes.names().len() - axis,
{
    if axis < 0 || axis >= b.axes.names().len() {
        Ok(env)
    } else {
        let dim = b.axes.names()[axis];
        let size = b.shape.dims()[axis];
        match known(env, dim) {
            None => bind(env.push(Extent { dim, size }), b, axis + 1),
            Some(expected) => if expected == size {
                bind(env, b, axis + 1)
            } else {
                Err(ContractError::Extent { param: b.param, dim, expected, found: size })
            },
        }
    }
}

/// The first thing wrong with the tensors `bounds`, taken in order.
pub open spec fn mismatch_after(env: Seq<Extent>, bounds: Seq<Bound>) -> Option<ContractError>
    decreases bounds.len(),
{
    if bounds.len() == 0 {
        None
    } else {
        let b = bounds[0];
        if b.shape.dims().len() != b.axes.names().len() {
            Some(
                ContractError::Rank {
                    param: b.param,
                    expected: b.axes.names().len() as u32,
                    found: b.shape.dims().len() as u32,
                },
            )
        } else {
            match bind(env, b, 0) {
                Err(e) => Some(e),
                Ok(env2) => mismatch_after(env2, bounds.drop_first()),
            }
        }
    }
}

/// The first thing wrong with these tensors; `None` where the contract holds.
pub open spec fn mismatch(bounds: Seq<Bound>) -> Option<ContractError> {
    mismatch_after(Seq::empty(), bounds)
}

fn lookup(env: &Vec<Extent>, dim: Dim) -> (r: Option<u32>)
    ensures
        r == known(env@, dim),
{
    let mut i: usize = env.len();
    assert(env@.take(i as int) =~= env@);
    while i > 0
        invariant
            i <= env@.len(),
            known(env@.take(i as int), dim) == known(env@, dim),
        decreases i,
    {
        assert(env@.take(i as int).drop_last() =~= env@.take(i - 1));
        i = i - 1;
        if env[i].dim == dim {
            return Some(env[i].size);
        }
    }
    None
}

fn bind_axes(env: &mut Vec<Extent>, b: &Bound) -> (r: Result<(), ContractError>)
    requires
        b.shape.dims().len() == b.axes.names().len(),
    ensures
        match r {
            Ok(()) => bind(old(env)@, *b, 0) == Ok::<Seq<Extent>, ContractError>(final(env)@),
            Err(e) => bind(old(env)@, *b, 0) == Err::<Seq<Extent>, ContractError>(e),
        },
{
    let rank: usize = b.axes.rank();
    let mut axis: usize = 0;
    while axis < rank
        invariant
            axis <= rank,
            rank == b.axes.names().len(),
            rank == b.shape.dims().len(),
            bind(old(env)@, *b, 0) == bind(env@, *b, axis as int),
        decreases rank - axis,
    {
        let dim = b.axes.name(axis);
        let size = b.shape.extent(axis);
        match lookup(env, dim) {
            None => {
                env.push(Extent { dim, size });
            },
            Some(expected) => {
                if expected != size {
                    return Err(
                        ContractError::Extent { param: b.param, dim, expected, found: size },
                    );
                }
            },
        }
        axis = axis + 1;
    }
    Ok(())
}

/// Holds the tensors `bounds` to their contract.
pub fn check(bounds: &Vec<Bound>) -> (r: Result<(), ContractError>)
    ensures
        match r {
            Ok(()) => mismatch(bounds@) is None,
            Err(e) => mismatch(bounds@) == Some(e),
        },
{
    let mut env: Vec<Extent> = Vec::new();
    let mut i: usize = 0;
    assert(bounds@.skip(0) =~= bounds@);
    assert(env@ =~= Seq::<Extent>::empty());
    while i < bounds.len()
        invariant
            i <= bounds@.len(),
            mismatch_after(env@, bounds@.skip(i as int)) == mismatch(bounds@),
        decreases bounds@.len() - i,
    {
        assert(bounds@.skip(i as int).drop_first() =~= bounds@.skip(i + 1));
        let b = bounds[i];
        let found = b.shape.rank();
        let expected = b.axes.rank();
        if found != expected {
            return Err(
                ContractError::Rank {
                    param: b.param,
                    expected: expected as u32,
                    found: found as u32,
                },
            );
        }
        match bind_axes(&mut env, &b) {
            Ok(()) => {},
            Err(e) => {
                return Err(e);
            },
        }
        i = i + 1;
    }
    Ok(())
}

impl Param {
    pub open spec fn text(self) -> Seq<char> {
        match self {
            Param::Att => "att"@,
            Param::Dst => "dst"@,
            Param::Embed => "embed"@,
            Param::Hb => "hb"@,
            Param::Hb2 => "hb2"@,
            Param::K => "k"@,
            Param::KProj => "k_proj"@,
            Param::KeyCache => "key_cache"@,
            Param::O => "o"@,
            Param::Partial => "partial"@,
            Param::Q => "q"@,
            Param::Src => "src"@,
            Param::ValueCache => "value_cache"@,
            Param::W => "w"@,
            Param::Weight => "weight"@,
            Param::X => "x"@,
            Param::Xb => "xb"@,
            Param::Xout => "xout"@,
        }
    }

    /// The parameter's name.
    pub fn name(self) -> (r: &'static str)
        ensures
            r@ == self.text(),
    {
        match self {
            Param::Att => "att",
            Param::Dst => "dst",
            Param::Embed => "embed",
            Param::Hb => "hb",
            Param::Hb2 => "hb2",
            Param::K => "k",
            Param::KProj => "k_proj",
            Param::KeyCache => "key_cache",
            Param::O => "o",
            Param::Partial => "partial",
            Param::Q => "q",
            Param::Src => "src",
            Param::ValueCache => "value_cache",
            Param::W => "w",
            Param::Weight => "weight",
            Param::X => "x",
            Param::Xb => "xb",
            Param::Xout => "xout",
        }
    }
}

impl Dim {
    pub open spec fn text(self) -> Seq<char> {
        match self {
            Dim::D => "d"@,
            Dim::Dim => "dim"@,
            Dim::Head => "head"@,
            Dim::Hidden => "hidden"@,
            Dim::KvDim => "kv_dim"@,
            Dim::KvHeads => "kv_heads"@,
            Dim::N => "n"@,
            Dim::QHeads => "q_heads"@,
            Dim::SeqLen => "seq"@,
            Dim::Slot => "slot"@,
            Dim::Splits => "splits"@,
            Dim::Vocab => "vocab"@,
        }
    }

    /// The axis name.
    pub fn name(self) -> (r: &'static str)
        ensures
            r@ == self.text(),
    {
        match self {
            Dim::D => "d",
            Dim::Dim => "dim",
            Dim::Head => "head",
            Dim::Hidden => "hidden",
            Dim::KvDim => "kv_dim",
            Dim::KvHeads => "kv_heads",
            Dim::N => "n",
            Dim::QHeads => "q_heads",
            Dim::SeqLen => "seq",
            Dim::Slot => "slot",
            Dim::Splits => "splits",
            Dim::Vocab => "vocab",
        }
    }
}

impl ContractError {
    pub open spec fn text(self) -> Seq<char> {
        match self {
            ContractError::Rank { param, expected, found } => "parameter `"@ + param.text()
                + "`: expected rank "@ + decimal(expected as nat) + ", found rank "@ + decimal(
                found as nat,
            ),
            ContractError::Extent { param, dim, expected, found } => "parameter `"@ + param.text()
                + "`: expected `"@ + dim.text() + "` to be "@ + decimal(expected as nat)
                + ", found "@ + decimal(found as nat),
        }
    }

    /// The error in words.
    pub fn message(self) -> (r: String)
        ensures
            r@ == self.text(),
    {
        let mut out = String::new();
        out.append("parameter `");
        match self {
            ContractError::Rank { param, expected, found } => {
                out.append(param.name());
                out.append("`: expected rank ");
                push_decimal(&mut out, expected as u64);
                out.append(", found rank ");
                push_decimal(&mut out, found as u64);
            },
            ContractError::Extent { param, dim, expected, found } => {
                out.append(param.name());
                out.append("`: expected `");
                out.append(dim.name());
                out.append("` to be ");
                push_decimal(&mut out, expected as u64);
                out.append(", found ");
                push_decimal(&mut out, found as u64);
            },
        }
        assert(out@ =~= self.text());
        out
    }
}

/// `axis` is an axis of the parameter number `p`.
pub open spec fn has_axis(bounds: Seq<Bound>, p: int, axis: int) -> bool {
    0 <= p < bounds.len() && 0 <= axis < bounds[p].axes.names().len()
}

/// The name of an axis.
pub open spec fn axis_name(bounds: Seq<Bound>, p: int, axis: int) -> Dim {
    bounds[p].axes.names()[axis]
}

/// The extent of an axis.
pub open spec fn axis_extent(bounds: Seq<Bound>, p: int, axis: int) -> u32 {
    bounds[p].shape.dims()[axis]
}

/// Every tensor has the rank that its parameter asks for.
pub open spec fn ranks_match(bounds: Seq<Bound>) -> bool {
    forall|p: int|
        0 <= p < bounds.len() ==> (#[trigger] bounds[p]).shape.dims().len()
            == bounds[p].axes.names().len()
}

/// Axes of one name have one extent.
pub open spec fn extents_agree(bounds: Seq<Bound>) -> bool {
    forall|p: int, a: int, q: int, b: int|
        #![trigger axis_name(bounds, p, a), axis_name(bounds, q, b)]
        has_axis(bounds, p, a) && has_axis(bounds, q, b) && axis_name(bounds, p, a) == axis_name(
            bounds,
            q,
            b,
        ) ==> axis_extent(bounds, p, a) == axis_extent(bounds, q, b)
}

/// The axis `(p, a)` comes before the axis `(q, b)`.
pub open spec fn before(p: int, a: int, q: int, b: int) -> bool {
    p < q || (p == q && a < b)
}

/// Ranks are as asked before the parameter number `q`, and axes of one name have one extent
/// before the axis `(q, b)`.
pub open spec fn agree_before(bounds: Seq<Bound>, q: int, b: int) -> bool {
    &&& forall|p: int|
        0 <= p < q ==> (#[trigger] bounds[p]).shape.dims().len() == bounds[p].axes.names().len()
    &&& forall|p: int, a: int, r: int, c: int|
        #![trigger axis_name(bounds, p, a), axis_name(bounds, r, c)]
        has_axis(bounds, p, a) && has_axis(bounds, r, c) && before(p, a, q, b) && before(
            r,
            c,
            q,
            b,
        ) && axis_name(bounds, p, a) == axis_name(bounds, r, c) ==> axis_extent(bounds, p, a)
            == axis_extent(bounds, r, c)
}

/// The axis `(q, b)` is the first that contradicts: an earlier one, `(p, a)`, has its name and
/// another extent.
pub open spec fn contradicts(bounds: Seq<Bound>, p: int, a: int, q: int, b: int) -> bool {
    &&& has_axis(bounds, p, a)
    &&& has_axis(bounds, q, b)
    &&& before(p, a, q, b)
    &&& axis_name(bounds, p, a) == axis_name(bounds, q, b)
    &&& axis_extent(bounds, p, a) != axis_extent(bounds, q, b)
    &&& bounds[q].shape.dims().len() == bounds[q].axes.names().len()
    &&& agree_before(bounds, q, b)
}

/// `env` holds what the axes before `(q, b)` say, and these do not contradict.
spec fn sums_up(env: Seq<Extent>, bounds: Seq<Bound>, q: int, b: int) -> bool {
    &&& forall|p: int, a: int|
        #![trigger axis_name(bounds, p, a)]
        has_axis(bounds, p, a) && before(p, a, q, b) ==> known(env, axis_name(bounds, p, a))
            == Some(axis_extent(bounds, p, a))
    &&& forall|dim: Dim| #[trigger]
        known(env, dim) is Some ==> exists|p: int, a: int|
            has_axis(bounds, p, a) && before(p, a, q, b) && #[trigger] axis_name(bounds, p, a)
                == dim
}

proof fn lemma_known_push(env: Seq<Extent>, e: Extent, dim: Dim)
    ensures
        known(env.push(e), dim) == (if e.dim == dim {
            Some(e.size)
        } else {
            known(env, dim)
        }),
{
    assert(env.push(e).drop_last() =~= env);
}

/// Ranks are as asked before the parameter number `q`.
spec fn ranks_before(bounds: Seq<Bound>, q: int) -> bool {
    forall|p: int|
        0 <= p < q ==> (#[trigger] bounds[p]).shape.dims().len() == bounds[p].axes.names().len()
}

/// The error speaks of the first axis of the parameter number `q` that contradicts.
spec fn reports_extent(bounds: Seq<Bound>, q: int, e: ContractError) -> bool {
    exists|p: int, a: int, b: int| #[trigger]
        contradicts(bounds, p, a, q, b) && e == (ContractError::Extent {
            param: bounds[q].param,
            dim: axis_name(bounds, q, b),
            expected: axis_extent(bounds, p, a),
            found: axis_extent(bounds, q, b),
        })
}

proof fn lemma_agree_before(env: Seq<Extent>, bounds: Seq<Bound>, q: int, b: int)
    requires
        ranks_before(bounds, q),
        sums_up(env, bounds, q, b),
    ensures
        agree_before(bounds, q, b),
{
}

proof fn lemma_bind(env: Seq<Extent>, bounds: Seq<Bound>, q: int, b: int)
    requires
        0 <= q < bounds.len(),
        0 <= b <= bounds[q].axes.names().len(),
        bounds[q].shape.dims().len() == bounds[q].axes.names().len(),
        sums_up(env, bounds, q, b),
    ensures
        match bind(env, bounds[q], b) {
            Ok(env2) => sums_up(env2, bounds, q + 1, 0),
            Err(e) => {
                &&& !extents_agree(bounds)
                &&& ranks_before(bounds, q) ==> reports_extent(bounds, q, e)
            },
        },
    decreases bounds[q].axes.names().len() - b,
{
    if b == bounds[q].axes.names().len() {
        assert forall|p: int, a: int|
            #![trigger axis_name(bounds, p, a)]
            has_axis(bounds, p, a) && before(p, a, q + 1, 0) implies known(
            env,
            axis_name(bounds, p, a),
        ) == Some(axis_extent(bounds, p, a)) by {
            assert(before(p, a, q, b));
        }
        assert forall|dim: Dim| #[trigger] known(env, dim) is Some implies exists|p: int, a: int|
            has_axis(bounds, p, a) && before(p, a, q + 1, 0) && #[trigger] axis_name(bounds, p, a)
                == dim by {
            let (p, a) = choose|p: int, a: int|
                has_axis(bounds, p, a) && before(p, a, q, b) && #[trigger] axis_name(bounds, p, a)
                    == dim;
            assert(before(p, a, q + 1, 0));
        }
    } else {
        let dim = axis_name(bounds, q, b);
        let size = axis_extent(bounds, q, b);
        assert(has_axis(bounds, q, b));
        match known(env, dim) {
            None => {
                let env2 = env.push(Extent { dim, size });
                assert forall|p: int, a: int|
                    #![trigger axis_name(bounds, p, a)]
                    has_axis(bounds, p, a) && before(p, a, q, b + 1) implies known(
                    env2,
                    axis_name(bounds, p, a),
                ) == Some(axis_extent(bounds, p, a)) by {
                    lemma_known_push(env, Extent { dim, size }, axis_name(bounds, p, a));
                    if !(p == q && a == b) {
                        assert(before(p, a, q, b));
                    }
                }
                assert forall|d: Dim| #[trigger] known(env2, d) is Some implies exists|
                    p: int,
                    a: int,
                |
                    has_axis(bounds, p, a) && before(p, a, q, b + 1) && #[trigger] axis_name(
                        bounds,
                        p,
                        a,
                    ) == d by {
                    lemma_known_push(env, Extent { dim, size }, d);
                    if d == dim {
                        assert(has_axis(bounds, q, b) && before(q, b, q, b + 1));
                    } else {
                        let (p, a) = choose|p: int, a: int|
                            has_axis(bounds, p, a) && before(p, a, q, b) && #[trigger] axis_name(
                                bounds,
                                p,
                                a,
                            ) == d;
                        assert(before(p, a, q, b + 1));
                    }
                }
                lemma_bind(env2, bounds, q, b + 1);
            },
            Some(expected) => {
                let (p, a) = choose|p: int, a: int|
                    has_axis(bounds, p, a) && before(p, a, q, b) && #[trigger] axis_name(
                        bounds,
                        p,
                        a,
                    ) == dim;
                assert(axis_extent(bounds, p, a) == expected);
                if expected != size {
                    if ranks_before(bounds, q) {
                        lemma_agree_before(env, bounds, q, b);
                        assert(contradicts(bounds, p, a, q, b));
                    }
                } else {
                    assert forall|p: int, a: int|
                        #![trigger axis_name(bounds, p, a)]
                        has_axis(bounds, p, a) && before(p, a, q, b + 1) implies known(
                        env,
                        axis_name(bounds, p, a),
                    ) == Some(axis_extent(bounds, p, a)) by {
                        if !(p == q && a == b) {
                            assert(before(p, a, q, b));
                        }
                    }
                    assert forall|d: Dim| #[trigger] known(env, d) is Some implies exists|
                        p: int,
                        a: int,
                    |
                        has_axis(bounds, p, a) && before(p, a, q, b + 1) && #[trigger] axis_name(
                            bounds,
                            p,
                            a,
                        ) == d by {
                        let (p, a) = choose|p: int, a: int|
                            has_axis(bounds, p, a) && before(p, a, q, b) && #[trigger] axis_name(
                                bounds,
                                p,
                                a,
                            ) == d;
                        assert(before(p, a, q, b + 1));
                    }
                    lemma_bind(env, bounds, q, b + 1);
                }
            },
        }
    }
}

/// The error speaks of the parameter number `q`, before which all is well: of its rank, or of
/// its first axis that contradicts an earlier one.
pub open spec fn reports(bounds: Seq<Bound>, q: int, e: ContractError) -> bool {
    &&& 0 <= q < bounds.len()
    &&& agree_before(bounds, q, 0)
    &&& match e {
        ContractError::Rank { param, expected, found } => {
            &&& param == bounds[q].param
            &&& expected == bounds[q].axes.names().len()
            &&& found == bounds[q].shape.dims().len()
            &&& expected != found
        },
        ContractError::Extent { param, dim, expected, found } => {
            &&& param == bounds[q].param
            &&& exists|p: int, a: int, b: int| #[trigger]
                contradicts(bounds, p, a, q, b) && dim == axis_name(bounds, q, b) && expected
                    == axis_extent(bounds, p, a) && found == axis_extent(bounds, q, b)
        },
    }
}

proof fn lemma_mismatch_after(env: Seq<Extent>, bounds: Seq<Bound>, q: int)
    requires
        0 <= q <= bounds.len(),
        sums_up(env, bounds, q, 0),
        forall|p: int|
            0 <= p < q ==> (#[trigger] bounds[p]).shape.dims().len()
                == bounds[p].axes.names().len(),
    ensures
        mismatch_after(env, bounds.skip(q)) is None <==> ranks_match(bounds) && extents_agree(
            bounds,
        ),
        mismatch_after(env, bounds.skip(q)) matches Some(e) ==> exists|r: int|
            #[trigger] reports(bounds, r, e),
    decreases bounds.len() - q,
{
    let rest = bounds.skip(q);
    if q < bounds.len() {
        assert(rest[0] == bounds[q]);
        assert(rest.drop_first() =~= bounds.skip(q + 1));
        if bounds[q].shape.dims().len() == bounds[q].axes.names().len() {
            lemma_bind(env, bounds, q, 0);
            match bind(env, bounds[q], 0) {
                Ok(env2) => {
                    lemma_mismatch_after(env2, bounds, q + 1);
                },
                Err(e) => {
                    assert(reports(bounds, q, e));
                },
            }
        } else {
            assert(!ranks_match(bounds));
            lemma_agree_before(env, bounds, q, 0);
            assert(reports(bounds, q, mismatch_after(env, rest)->Some_0));
        }
    } else {
        assert forall|p: int, a: int, r: int, b: int|
            #![trigger axis_name(bounds, p, a), axis_name(bounds, r, b)]
            has_axis(bounds, p, a) && has_axis(bounds, r, b) && axis_name(bounds, p, a)
                == axis_name(bounds, r, b) implies axis_extent(bounds, p, a) == axis_extent(
            bounds,
            r,
            b,
        ) by {
            assert(before(p, a, q, 0));
            assert(before(r, b, q, 0));
        }
    }
}

/// A kernel accepts its tensors exactly where every rank is as asked and axes of one
/// name have one extent.
pub proof fn law_contract_holds_iff_axes_agree(bounds: Seq<Bound>)
    ensures
        mismatch(bounds) is None <==> ranks_match(bounds) && extents_agree(bounds),
{
    assert(bounds.skip(0) =~= bounds);
    lemma_mismatch_after(Seq::empty(), bounds, 0);
}

/// The error names the first parameter that does not fit. Of its rank it gives the number of
/// axes asked for and the number found; of its first contradicting axis, the extent that an
/// earlier axis of that name has and the extent found.
pub proof fn law_contract_error_names_the_first_mismatch(bounds: Seq<Bound>)
    ensures
        mismatch(bounds) matches Some(e) ==> exists|q: int| #[trigger] reports(bounds, q, e),
{
    assert(bounds.skip(0) =~= bounds);
    lemma_mismatch_after(Seq::empty(), bounds, 0);
}

/// What the errors say: the parameter, what was expected of it, and what was found.
pub proof fn law_contract_error_words(param: Param, dim: Dim, expected: u32, found: u32)
    ensures
        (ContractError::Rank { param, expected, found }).text() == "parameter `"@ + param.text()
            + "`: expected rank "@ + decimal(expected as nat) + ", found rank "@ + decimal(
            found as nat,
        ),
        (ContractError::Extent { param, dim, expected, found }).text() == "parameter `"@
            + param.text() + "`: expected `"@ + dim.text() + "` to be "@ + decimal(
            expected as nat,
        ) + ", found "@ + decimal(found as nat),
{
}

} // verus!
