//! The mid level IR, a basic block based representation used for most optimizations.

use vstd::prelude::*;
use std::rc::Rc;
use crate::bigint::BigInt;
use crate::types::{
    AtomId, Binop, IntTy, Remapper, Spanned, Unop, decimal, node_remapped, push_decimal,
};

verus! {

/// A variable ID, numbered apart from the variables of the higher level IR.
#[derive(Clone, Copy, Debug, Default, PartialEq, Eq, Structural, Hash)]
pub struct VarId(pub u32);

impl VarId {
    /// The name of this variable: `_` and its number, as in `_12`.
    pub fn display(&self) -> (r: String)
        ensures
            r@ == seq!['_'] + decimal(self.0 as nat),
    {
        let mut s = String::from_str("_");
        proof {
            reveal_strlit("_");
            assert(s@ =~= seq!['_']);
        }
        push_decimal(&mut s, self.0);
        s
    }
}

/// A type variable, bound by a declaration.
#[derive(Clone, Copy, Debug, Default, PartialEq, Eq, Structural, Hash)]
pub struct TyVarId(pub u32);

/// The lifetime of a borrow.
#[derive(Clone, Copy, Debug, PartialEq, Eq, Structural)]
pub enum Lifetime {
    /// A lifetime that outlives the function.
    Extern,
    /// The lifetime of the place the variable lives in.
    Place(VarId),
}

/// Attributes on arguments in a `(struct)` dependent tuple type: a set of the flags
/// `NONDEP`, `EXISTENTIAL`, `SINGLETON` and `GHOST`, each a bit of `bits`.
#[derive(Clone, Copy, Debug, Default, PartialEq, Eq, Structural, Hash)]
pub struct ArgAttr {
    /// The flags, one bit each.
    pub bits: u8,
}

impl ArgAttr {
    /// The remainder of the type does not depend on this variable.
    pub const NONDEP: u8 = 1;

    /// An existential `exists x. p(x)` rather than a sigma `sigma x. p(x)`: the witness
    /// cannot be projected out.
    pub const EXISTENTIAL: u8 = 2;

    /// An existential whose witness is determined (`()`, `sn x`, a proposition), so that it
    /// can be projected out after all.
    pub const SINGLETON: u8 = 4;

    /// No bit representation: like `EXISTENTIAL` at the computation level.
    pub const GHOST: u8 = 8;
}

/// A type, which classifies regular variables (not type variables, not hypotheses).
pub type Ty = Rc<TyKind>;

/// A pure expression.
pub type Expr = Rc<ExprKind>;

/// A pure expression that witnesses the value, if there is one, with the type.
pub type ExprTy = (Option<Expr>, Ty);

/// The type of embedded MM0 expressions.
pub type Mm0Expr = crate::types::Mm0Expr<Expr>;

/// An argument in a struct (dependent tuple).
#[derive(Debug)]
pub struct Arg {
    /// Extra properties of the binding
    pub attr: ArgAttr,
    /// The variable to bind
    pub var: VarId,
    /// The type of the variable
    pub ty: Ty,
}

/// A type, which classifies regular variables (not type variables, not hypotheses).
#[derive(Debug)]
pub enum TyKind {
    /// `()` is the type with one element; `sizeof () = 0`.
    Unit,
    /// A true proposition.
    True,
    /// A false proposition.
    False,
    /// `bool` is the type of booleans, that is, bytes which are 0 or 1; `sizeof bool = 1`.
    Bool,
    /// A type variable.
    Var(TyVarId),
    /// The integral types.
    Int(IntTy),
    /// The type `[T; n]` is an array of `n` elements of type `T`.
    Array(Ty, Expr),
    /// `own T` is a type of owned pointers.
    Own(Ty),
    /// `(ref a T)` is a type of borrowed values with lifetime `a`.
    Ref(Lifetime, Ty),
    /// `&sn x` is the type of pointers to the place `x`.
    RefSn(Expr),
    /// `(sn {a : T})` the type of values of type `T` that are equal to `a`.
    Sn(Expr, Ty),
    /// `{x : A, y : B, z : C}` is the dependent version of `list`: later types may refer to
    /// earlier variables.
    Struct(Vec<Arg>),
    /// A universally quantified proposition.
    All(VarId, Ty, Ty),
    /// Implication (plain, non-separating).
    Imp(Ty, Ty),
    /// Separating implication.
    Wand(Ty, Ty),
    /// Negation.
    Not(Ty),
    /// `(and A B C)` is an intersection type of `A, B, C`.
    And(Vec<Ty>),
    /// `(or A B C)` is an undiscriminated anonymous union of types `A, B, C`.
    Or(Vec<Ty>),
    /// `(if c A B)` is the type `A` where `c` holds and `B` where it does not.
    If(Expr, Ty, Ty),
    /// `(ghost A)` is a computationally irrelevant version of `A`; `sizeof (ghost A) = 0`.
    GhostTy(Ty),
    /// `(? T)` is the type of possibly-uninitialized `T`s.
    Uninit(Ty),
    /// A boolean expression, interpreted as a pure proposition
    Pure(Expr),
    /// A user-defined type-former.
    User(AtomId, Vec<Ty>, Vec<Expr>),
    /// A heap assertion `l |-> (v: |T|)`.
    Heap(Expr, Expr, Ty),
    /// An explicit typing assertion `[v : T]`.
    HasTy(Expr, Ty),
    /// The input token.
    Input,
    /// The output token.
    Output,
    /// A moved-away type.
    Moved(Ty),
}

/// The type of variant, or well founded order that recursions decrease.
#[derive(Debug)]
pub enum VariantType {
    /// This variant is a nonnegative natural number which decreases to 0.
    Down,
    /// This variant is a natural number or integer which increases while
    /// remaining less than this constant.
    UpLt(Expr),
    /// This variant is a natural number or integer which increases while
    /// remaining less than or equal to this constant.
    UpLe(Expr),
}

/// A variant is a pure expression, together with a
/// well founded order that decreases on all calls.
#[derive(Debug)]
pub struct Variant(pub Expr, pub VariantType);

/// A pure expression.
#[derive(Debug)]
pub enum ExprKind {
    /// A `()` literal.
    Unit,
    /// A variable reference.
    Var(VarId),
    /// A user constant.
    Const(AtomId),
    /// A boolean literal.
    Bool(bool),
    /// A number literal.
    Int(BigInt),
    /// A unary operation.
    Unop(Unop, Expr),
    /// A binary operation.
    Binop(Binop, Expr, Expr),
    /// An index operation `a[i]: T` where `a: (array T n)` and `i: nat`.
    Index(Expr, Expr),
    /// If `x: (array T n)`, then `x[a..a+b]: (array T b)`.
    Slice(Expr, Expr, Expr),
    /// A projection operation `x.i: T`.
    Proj(Expr, u32),
    /// `(update-index a i e)` is the result of `a` after `a[i] = e`.
    UpdateIndex(Expr, Expr, Expr),
    /// `(update-slice x a b e)` is the result of assigning `x[a..a+b] = e`.
    UpdateSlice(Expr, Expr, Expr, Expr),
    /// `(update-proj x i)` is the result of assigning `x.i = e`.
    UpdateProj(Expr, u32, Expr),
    /// `(e1, ..., en)` returns a tuple of the arguments.
    List(Vec<Expr>),
    /// `[e1, ..., en]`, an array literal.
    Array(Vec<Expr>),
    /// Return the size of a type.
    Sizeof(Ty),
    /// A pointer to a place.
    Ref(Expr),
    /// `(pure $e$)` embeds an MM0 expression `$e$` as the target type.
    Mm0(Mm0Expr),
    /// A function call
    Call {
        /// The function to call.
        f: AtomId,
        /// The type arguments.
        tys: Vec<Ty>,
        /// The function arguments.
        args: Vec<Expr>,
    },
    /// An if-then-else expression.
    If {
        /// The if condition.
        cond: Expr,
        /// The then case.
        then: Expr,
        /// The else case.
        els: Expr,
    },
}

/// A basic block ID, which is used to look up blocks in the `Cfg`.
#[derive(Copy, Clone, Default, Debug, PartialEq, Eq, Structural)]
pub struct BlockId(pub u32);

impl BlockId {
    /// The ID of the entry block.
    pub fn entry() -> (r: BlockId)
        ensures
            r.0 == 0,
    {
        BlockId(0)
    }
}

/// A "context buffer ID", which points to one of the context buffers in the `Contexts` struct.
#[derive(Copy, Clone, Debug, Default, PartialEq, Eq, Structural)]
pub struct CtxBufId(pub u32);

impl CtxBufId {
    /// The root context buffer is the first one; this is its own parent.
    pub fn root() -> (r: CtxBufId)
        ensures
            r.0 == 0,
    {
        CtxBufId(0)
    }
}

/// A context ID, which consists of a context buffer ID (which selects a context buffer from the
/// `Contexts`), plus an index into that buffer. The logical context denoted includes all
/// contexts in the parent chain up to the root, plus the selected context buffer up to the
/// specified index (which may be any number `<= buf.len()`).
#[derive(Copy, Clone, Debug, Default, PartialEq, Eq, Structural)]
pub struct CtxId(pub CtxBufId, pub u32);

impl CtxId {
    /// The empty context.
    pub fn root() -> (r: CtxId)
        ensures
            r == CtxId(CtxBufId(0), 0),
    {
        CtxId(CtxBufId(0), 0)
    }
}

/// A context buffer.
#[derive(Debug)]
pub struct CtxBuf {
    /// The parent context, which this buffer is viewed as extending.
    pub parent: CtxId,
    /// The additional variables that this buffer adds to the context.
    pub vars: Vec<(VarId, ExprTy)>,
}

/// A collection of contexts, maintaining a tree structure. The underlying data structure is a
/// list of `CtxBuf` structs, each of which is a `CtxId` pointer to another context, plus an
/// additional list of variables and types. The context at index 0 is the root context, and is
/// its own parent.
#[derive(Debug)]
pub struct Contexts(pub Vec<CtxBuf>);

impl Contexts {
    /// The buffer with index `b`.
    pub open spec fn buf(&self, b: int) -> &CtxBuf {
        &self.0@[b]
    }

    /// `id` names a buffer and a position no further than that buffer's end.
    pub open spec fn valid_id(&self, id: CtxId) -> bool {
        &&& id.0.0 < self.0@.len()
        &&& id.1 <= self.buf(id.0.0 as int).vars@.len()
    }

    /// The tree is well formed: the root is its own parent, and every other buffer extends a
    /// valid context of a buffer with a smaller index, so that every parent chain reaches the
    /// root.
    pub open spec fn wf(&self) -> bool {
        &&& self.0@.len() >= 1
        &&& self.buf(0).parent == CtxId(CtxBufId(0), 0)
        &&& forall|j: int|
            1 <= j < self.0@.len() ==> (#[trigger] self.buf(j)).parent.0.0 < j
                && self.valid_id(self.buf(j).parent)
    }

    /// The logical context that `id` denotes, oldest variable first.
    pub open spec fn ctx(&self, id: CtxId) -> Seq<(VarId, ExprTy)>
        decreases id.0.0,
    {
        let b = self.buf(id.0.0 as int);
        let own = b.vars@.subrange(0, id.1 as int);
        if id.0.0 == 0 || b.parent.0.0 >= id.0.0 {
            own
        } else {
            self.ctx(b.parent) + own
        }
    }

    /// Every context that was valid in `self` is valid in `other` and denotes the same
    /// variables.
    pub open spec fn preserves(&self, other: &Contexts) -> bool {
        forall|c: CtxId| #[trigger] self.valid_id(c) ==> other.valid_id(c) && other.ctx(c) == self.ctx(c)
    }

    /// The empty tree, holding only the root buffer.
    pub fn new() -> (r: Contexts)
        ensures
            r.wf(),
            r.0@.len() == 1,
            r.buf(0).vars@.len() == 0,
    {
        Contexts(vec![CtxBuf { parent: CtxId::root(), vars: Vec::new() }])
    }

    /// The number of buffers.
    pub fn len(&self) -> (r: usize)
        ensures
            r == self.0@.len(),
    {
        self.0.len()
    }

    /// Given a context ID, return a buffer that can be directly extended to extend the context.
    /// If `id` ends at its buffer's end, that buffer is returned and `id` stays. Otherwise a
    /// fresh, empty buffer is allocated with `id` as parent and returned, and `id` is moved to
    /// `(fresh, 1)`: the context after the caller pushes one variable onto it.
    pub fn unshare(&mut self, id: &mut CtxId) -> (r: CtxBufId)
        requires
            old(self).wf(),
            old(self).valid_id(*old(id)),
            old(self).0@.len() < u32::MAX,
        ensures
            final(self).wf(),
            old(self).preserves(final(self)),
            r.0 < final(self).0@.len(),
            final(self).buf(r.0 as int).vars@.len() <= u32::MAX,
            final(self).ctx(CtxId(r, final(self).buf(r.0 as int).vars@.len() as u32)) == old(self).ctx(*old(id)),
            old(id).1 == old(self).buf(old(id).0.0 as int).vars@.len() ==> {
                &&& r == old(id).0
                &&& *final(id) == *old(id)
                &&& final(self).0@ == old(self).0@
            },
            old(id).1 != old(self).buf(old(id).0.0 as int).vars@.len() ==> {
                &&& r == CtxBufId(old(self).0@.len() as u32)
                &&& *final(id) == CtxId(r, 1)
                &&& final(self).0@.len() == old(self).0@.len() + 1
                &&& final(self).0@.subrange(0, old(self).0@.len() as int) == old(self).0@
                &&& final(self).buf(old(self).0@.len() as int).parent == *old(id)
                &&& final(self).buf(old(self).0@.len() as int).vars@.len() == 0
            },
    {
        let b = id.0.0 as usize;
        if self.0[b].vars.len() == id.1 as usize {
            id.0
        } else {
            let new_id = CtxBufId(self.0.len() as u32);
            let ghost old_self = *self;
            self.0.push(CtxBuf { parent: *id, vars: Vec::new() });
            proof {
                assert forall|j: int| 1 <= j < self.0@.len() implies (#[trigger] self.buf(j)).parent.0.0 < j
                    && self.valid_id(self.buf(j).parent) by {
                    if j < old_self.0@.len() {
                        assert(self.buf(j) == old_self.buf(j));
                        assert(old_self.valid_id(old_self.buf(j).parent));
                    }
                }
                assert(self.0@.subrange(0, old_self.0@.len() as int) == old_self.0@);
                assert forall|j: int| 0 <= j < old_self.0@.len() implies (#[trigger] self.buf(j)).parent == old_self.buf(j).parent
                    && old_self.buf(j).vars@.len() <= self.buf(j).vars@.len()
                    && self.buf(j).vars@.subrange(0, old_self.buf(j).vars@.len() as int) == old_self.buf(j).vars@ by {
                    assert(self.buf(j) == old_self.buf(j));
                    assert(self.buf(j).vars@.subrange(0, self.buf(j).vars@.len() as int) =~= self.buf(j).vars@);
                }
                lemma_ctx_stable(&old_self, self);
                assert(old_self.valid_id(*id));
                let nid = CtxId(new_id, 0);
                assert(self.ctx(nid) == self.ctx(*id) + self.buf(new_id.0 as int).vars@.subrange(0, 0));
                assert(self.ctx(nid) =~= old_self.ctx(*id));
            }
            *id = CtxId(new_id, 1);
            new_id
        }
    }

    /// Given a context, extend it with a variable and type to produce a new context. The old
    /// context stays valid and keeps its meaning; extending a context that is not the end of
    /// its buffer starts a new buffer.
    pub fn extend(&mut self, ctx: CtxId, var: VarId, ty: ExprTy) -> (r: CtxId)
        requires
            old(self).wf(),
            old(self).valid_id(ctx),
            old(self).0@.len() < u32::MAX,
            old(self).buf(ctx.0.0 as int).vars@.len() < u32::MAX,
        ensures
            final(self).wf(),
            old(self).preserves(final(self)),
            final(self).valid_id(r),
            final(self).ctx(r) == old(self).ctx(ctx).push((var, ty)),
            ctx.1 == old(self).buf(ctx.0.0 as int).vars@.len() ==> {
                &&& r == CtxId(ctx.0, (ctx.1 + 1) as u32)
                &&& final(self).0@.len() == old(self).0@.len()
                &&& final(self).buf(ctx.0.0 as int).parent == old(self).buf(ctx.0.0 as int).parent
                &&& final(self).buf(ctx.0.0 as int).vars@ == old(self).buf(ctx.0.0 as int).vars@.push((var, ty))
                &&& forall|j: int| 0 <= j < old(self).0@.len() && j != ctx.0.0 ==> #[trigger] final(self).buf(j) == old(self).buf(j)
            },
            ctx.1 != old(self).buf(ctx.0.0 as int).vars@.len() ==> {
                &&& r == CtxId(CtxBufId(old(self).0@.len() as u32), 1)
                &&& final(self).0@.len() == old(self).0@.len() + 1
                &&& final(self).0@.subrange(0, old(self).0@.len() as int) == old(self).0@
                &&& final(self).buf(old(self).0@.len() as int).parent == ctx
                &&& final(self).buf(old(self).0@.len() as int).vars@ == seq![(var, ty)]
            },
    {
        let mut id = ctx;
        let b = self.unshare(&mut id);
        let ghost mid = *self;
        let bi = b.0 as usize;
        let ghost idm = CtxId(b, mid.buf(bi as int).vars@.len() as u32);
        let at_end = id.1 as usize == self.0[bi].vars.len();
        let entry = (var, ty);
        self.0[bi].vars.push(entry);
        let r = if at_end {
            CtxId(b, id.1 + 1)
        } else {
            id
        };
        proof {
            assert(r == CtxId(b, (idm.1 + 1) as u32));
            assert forall|j: int| 0 <= j < mid.0@.len() implies (#[trigger] self.buf(j)).parent == mid.buf(j).parent
                && mid.buf(j).vars@.len() <= self.buf(j).vars@.len()
                && self.buf(j).vars@.subrange(0, mid.buf(j).vars@.len() as int) == mid.buf(j).vars@ by {
                if j == bi {
                    assert(self.buf(j).vars@ == mid.buf(j).vars@.push(entry));
                    assert(self.buf(j).vars@.subrange(0, mid.buf(j).vars@.len() as int) =~= mid.buf(j).vars@);
                } else {
                    assert(self.buf(j) == mid.buf(j));
                    assert(self.buf(j).vars@.subrange(0, self.buf(j).vars@.len() as int) =~= self.buf(j).vars@);
                }
            }
            assert forall|j: int| 1 <= j < self.0@.len() implies (#[trigger] self.buf(j)).parent.0.0 < j
                && self.valid_id(self.buf(j).parent) by {
                assert(mid.buf(j).parent.0.0 < j);
                assert(mid.valid_id(mid.buf(j).parent));
            }
            lemma_ctx_stable(&mid, self);
            let own = self.buf(bi as int).vars@.subrange(0, r.1 as int);
            assert(own =~= mid.buf(bi as int).vars@.subrange(0, idm.1 as int).push(entry));
            if !(r.0.0 == 0 || self.buf(bi as int).parent.0.0 >= r.0.0) {
                assert(self.ctx(r) == self.ctx(self.buf(bi as int).parent) + own);
                assert(mid.ctx(idm) == mid.ctx(mid.buf(bi as int).parent) + mid.buf(bi as int).vars@.subrange(0, idm.1 as int));
                assert(self.ctx(r) =~= mid.ctx(idm).push(entry));
            } else {
                assert(self.ctx(r) =~= mid.ctx(idm).push(entry));
            }
            if ctx.1 != old(self).buf(ctx.0.0 as int).vars@.len() {
                assert(mid.buf(bi as int).vars@.len() == 0);
                assert(self.buf(bi as int).vars@ =~= seq![entry]);
                assert forall|j: int| 0 <= j < old(self).0@.len() implies self.0@[j] == old(self).0@[j] by {
                    assert(mid.0@.subrange(0, old(self).0@.len() as int)[j] == mid.0@[j]);
                }
                assert(self.0@.subrange(0, old(self).0@.len() as int) =~= old(self).0@);
            } else {
                assert(mid.0@ == old(self).0@);
            }
        }
        r
    }

    /// The variables of a context with their types, from the most recently added to the least
    /// recent: the buffer's first `i` variables back to front, then those of its parent.
    pub fn rev_iter(&self, id: CtxId) -> (r: Vec<(VarId, ExprTy)>)
        requires
            self.wf(),
            self.valid_id(id),
        ensures
            r@ == self.ctx(id).reverse(),
    {
        let mut out: Vec<(VarId, ExprTy)> = Vec::new();
        let mut cur = id;
        loop
            invariant
                self.wf(),
                self.valid_id(cur),
                out@ + self.ctx(cur).reverse() == self.ctx(id).reverse(),
            decreases cur.0.0,
        {
            let bi = cur.0.0 as usize;
            let mut i: u32 = cur.1;
            let ghost own = self.buf(bi as int).vars@.subrange(0, cur.1 as int);
            let ghost start = out@;
            while i > 0
                invariant
                    self.wf(),
                    self.valid_id(cur),
                    bi == cur.0.0,
                    i <= cur.1,
                    own == self.buf(bi as int).vars@.subrange(0, cur.1 as int),
                    out@ == start + own.subrange(i as int, cur.1 as int).reverse(),
                decreases i,
            {
                i = i - 1;
                let e = &self.0[bi].vars[i as usize];
                let item = (e.0, clone_expr_ty(&e.1));
                let ghost before = out@;
                out.push(item);
                proof {
                    assert(item == own[i as int]);
                    assert(own.subrange(i as int, cur.1 as int).reverse() =~= own.subrange(i as int + 1, cur.1 as int).reverse().push(own[i as int]));
                }
            }
            assert(own.subrange(0, cur.1 as int) =~= own);
            let p = self.0[bi].parent;
            if cur.0.0 == 0 || p.0.0 >= cur.0.0 {
                assert(self.ctx(cur) == own);
                assert(out@ =~= self.ctx(id).reverse());
                return out;
            }
            assert(self.ctx(cur) == self.ctx(p) + own);
            assert((self.ctx(p) + own).reverse() =~= own.reverse() + self.ctx(p).reverse());
            assert(out@ + self.ctx(p).reverse() =~= self.ctx(id).reverse());
            cur = p;
        }
    }
}

/// Growing buffers at their ends and adding new buffers keeps every existing context.
proof fn lemma_ctx_stable(a: &Contexts, b: &Contexts)
    requires
        a.wf(),
        a.0@.len() <= b.0@.len(),
        forall|j: int|
            0 <= j < a.0@.len() ==> (#[trigger] b.buf(j)).parent == a.buf(j).parent
                && a.buf(j).vars@.len() <= b.buf(j).vars@.len()
                && b.buf(j).vars@.subrange(0, a.buf(j).vars@.len() as int) == a.buf(j).vars@,
    ensures
        a.preserves(b),
{
    assert forall|c: CtxId| #[trigger] a.valid_id(c) implies b.valid_id(c) && b.ctx(c) == a.ctx(c) by {
        lemma_ctx_stable_at(a, b, c);
    }
}

/// One context at a time, by induction along the parent chain.
proof fn lemma_ctx_stable_at(a: &Contexts, b: &Contexts, c: CtxId)
    requires
        a.wf(),
        a.0@.len() <= b.0@.len(),
        forall|j: int|
            0 <= j < a.0@.len() ==> (#[trigger] b.buf(j)).parent == a.buf(j).parent
                && a.buf(j).vars@.len() <= b.buf(j).vars@.len()
                && b.buf(j).vars@.subrange(0, a.buf(j).vars@.len() as int) == a.buf(j).vars@,
        a.valid_id(c),
    ensures
        b.valid_id(c),
        b.ctx(c) == a.ctx(c),
    decreases c.0.0,
{
    let j = c.0.0 as int;
    assert(b.buf(j).parent == a.buf(j).parent);
    let sa = a.buf(j).vars@;
    let sb = b.buf(j).vars@;
    assert(sb.subrange(0, sa.len() as int) == sa);
    assert(sb.subrange(0, c.1 as int) =~= sa.subrange(0, c.1 as int)) by {
        assert forall|k: int| 0 <= k < c.1 implies sb.subrange(0, c.1 as int)[k] == sa.subrange(0, c.1 as int)[k] by {
            assert(sb.subrange(0, sa.len() as int)[k] == sb[k]);
        }
    }
    if j != 0 && a.buf(j).parent.0.0 < j {
        lemma_ctx_stable_at(a, b, a.buf(j).parent);
    }
}

/// A copy of a typed expression, sharing its trees.
pub fn clone_expr_ty(e: &ExprTy) -> (r: ExprTy)
    ensures
        r == *e,
{
    let ty = e.1.clone();
    let ex = match &e.0 {
        Some(x) => Some(x.clone()),
        None => None,
    };
    (ex, ty)
}

/// The `k`-th ancestor of `id`: `id` itself for `k == 0`, else the parent of the buffer of
/// the `(k-1)`-th ancestor.
pub open spec fn ancestor(ctxs: &Contexts, id: CtxId, k: nat) -> CtxId
    decreases k,
{
    if k == 0 {
        id
    } else {
        ctxs.buf(ancestor(ctxs, id, (k - 1) as nat).0.0 as int).parent
    }
}

/// In a well-formed tree every context id ends within its buffer, and its parent chain
/// consists of valid ids and reaches the root buffer after at most as many steps as the
/// index of its buffer, staying there.
pub proof fn lemma_parent_chain_reaches_root(ctxs: &Contexts, id: CtxId, k: nat)
    requires
        ctxs.wf(),
        ctxs.valid_id(id),
    ensures
        id.1 <= ctxs.buf(id.0.0 as int).vars@.len(),
        ctxs.valid_id(ancestor(ctxs, id, k)),
        ancestor(ctxs, id, k).0.0 <= id.0.0,
        k >= id.0.0 ==> ancestor(ctxs, id, k).0.0 == 0,
        k < id.0.0 ==> ancestor(ctxs, id, k).0.0 <= id.0.0 - k,
    decreases k,
{
    if k > 0 {
        lemma_parent_chain_reaches_root(ctxs, id, (k - 1) as nat);
        let p = ancestor(ctxs, id, (k - 1) as nat);
        if p.0.0 != 0 {
            assert(ctxs.buf(p.0.0 as int).parent.0.0 < p.0.0);
        }
    }
}

/// The different kinds of projection, used in defining places.
#[derive(Copy, Clone, Debug, PartialEq, Eq, Structural)]
pub enum ProjectionKind {
    /// A projection `a.i` which retrieves the `i`th element of a tuple.
    Struct,
    /// A projection `a[i]` which retrieves the `i`th element of an array.
    Array,
    /// A projection `a.i` which views a conjunction type as its `i`th conjunct.
    And,
    /// A projection `a.0` which views a value `a: (sn {x : T})` type as `a.0: T`.
    Sn,
}

/// A projection out of a place. An index or slice names the index value and a proof that it
/// is in bounds, so that the projection carries its own safety witness.
#[derive(Copy, Clone, Debug, PartialEq, Eq, Structural)]
pub enum Projection {
    /// A constant projection into a tuple, array, or and.
    Proj(ProjectionKind, u32),
    /// A variable index into an array. `(index _ i h)`, where `h: i < n` and `_` has type
    /// `(array T n)`.
    Index(VarId, VarId),
    /// A variable slice into an array. `(slice _ i l h)`, where `h: i + l <= n` and `_` has
    /// type `(array T n)`.
    Slice(VarId, VarId, VarId),
    /// A dereference operation `(* _)` on a pointer.
    Deref,
}

/// A place is a location in memory that can be read and written to: a local variable and a
/// sequence of projections on it.
#[derive(Clone, Debug)]
pub struct Place {
    /// A local variable as the source of the place.
    pub local: VarId,
    /// A list of projections on the variable to extract the relevant subpart.
    pub proj: Vec<Projection>,
}

impl Place {
    /// Construct a place directly from a local.
    pub fn local(local: VarId) -> (r: Place)
        ensures
            r.local == local,
            r.proj@.len() == 0,
    {
        Place { local, proj: Vec::new() }
    }
}

/// The different types of constant.
#[derive(Copy, Clone, Debug, PartialEq, Eq, Structural)]
pub enum ConstKind {
    /// A unit constant `()`.
    Unit,
    /// A true constant `()`.
    ITrue,
    /// A boolean constant.
    Bool,
    /// An integer constant.
    Int,
    /// The constant `uninit`, which has type `(? T)`. Used as an rvalue,
    /// this means the target place can receive any bit pattern.
    Uninit,
    /// A named constant.
    Const(AtomId),
}

/// A constant value.
#[derive(Debug)]
pub struct Constant {
    /// The type and value of the constant.
    pub ety: ExprTy,
    /// The value of the constant.
    pub k: ConstKind,
}

impl Constant {
    /// Returns a unit constant.
    pub fn unit() -> (r: Constant)
        ensures
            r.k == ConstKind::Unit,
            r.ety.0 matches Some(e) && *e is Unit,
            *r.ety.1 is Unit,
    {
        Constant { ety: (Some(Rc::new(ExprKind::Unit)), Rc::new(TyKind::Unit)), k: ConstKind::Unit }
    }

    /// Returns a true constant.
    pub fn itrue() -> (r: Constant)
        ensures
            r.k == ConstKind::ITrue,
            r.ety.0 matches Some(e) && *e is Unit,
            *r.ety.1 is True,
    {
        Constant { ety: (Some(Rc::new(ExprKind::Unit)), Rc::new(TyKind::True)), k: ConstKind::ITrue }
    }

    /// Returns an uninit constant of the specified type.
    pub fn uninit(ty: Ty) -> (r: Constant)
        ensures
            r.k == ConstKind::Uninit,
            r.ety.0 matches Some(e) && *e is Unit,
            *r.ety.1 == TyKind::Uninit(ty),
    {
        Constant {
            ety: (Some(Rc::new(ExprKind::Unit)), Rc::new(TyKind::Uninit(ty))),
            k: ConstKind::Uninit,
        }
    }

    /// Returns a boolean constant.
    pub fn bool(b: bool) -> (r: Constant)
        ensures
            r.k == ConstKind::Bool,
            r.ety.0 matches Some(e) && *e == ExprKind::Bool(b),
            *r.ety.1 is Bool,
    {
        Constant { ety: (Some(Rc::new(ExprKind::Bool(b))), Rc::new(TyKind::Bool)), k: ConstKind::Bool }
    }

    /// Returns an integral constant.
    pub fn integer(ty: IntTy, n: BigInt) -> (r: Constant)
        ensures
            r.k == ConstKind::Int,
            r.ety.0 matches Some(e) && *e == ExprKind::Int(n),
            *r.ety.1 == TyKind::Int(ty),
    {
        Constant { ety: (Some(Rc::new(ExprKind::Int(n))), Rc::new(TyKind::Int(ty))), k: ConstKind::Int }
    }
}

/// An operand: a place read by copy or move, a reference, or a constant.
#[derive(Debug)]
pub enum Operand {
    /// Copies the value at the given place. Requires that the type of the place is a copy type.
    Copy(Place),
    /// Moves the value out of the given place, which must not be used again.
    Move(Place),
    /// Copies the moved version of the data at the given place.
    Ref(Place),
    /// Synthesize a constant value.
    Const(Box<Constant>),
}

impl Operand {
    /// Convert an operand to an rvalue.
    pub fn rv(self) -> (r: RValue)
        ensures
            r == RValue::Use(self),
    {
        RValue::Use(self)
    }
}

/// A proof that `x: T` can be retyped as `U`.
#[derive(Debug)]
pub enum CastKind {
    /// * `Cast(x, Sn(None))` proves that `x: sn x`
    /// * `Cast(x, Sn(Some(h)))` proves that `x: sn y` where `h: x = y`
    Sn(Option<Operand>),
}

/// An rvalue is an expression that can be used as the right hand side of an assignment;
/// most side-effect-free expressions fall in this category.
#[derive(Debug)]
pub enum RValue {
    /// Directly use a place value or constant.
    Use(Operand),
    /// Apply a unary operator.
    Unop(Unop, Operand),
    /// Apply a binary operator.
    Binop(Binop, Operand, Operand),
    /// Construct an lvalue reference with the specified type.
    Cast(Place, CastKind),
    /// Move the target place into a ghost variable.
    MakeGhost(Operand),
}

/// The different kinds of existential elimination statement.
#[derive(Debug)]
pub enum ExElimKind {
    /// `Own(x, T, p, &sn x)` is an existential pattern match on `(own T)`, producing a
    /// value `x` and a pointer `p: &sn x`.
    Own([(VarId, Ty); 2]),
}

/// A statement is an operation in a basic block that does not end the block: it always steps
/// to the following statement after performing some action that cannot fail.
#[derive(Debug)]
pub enum Statement {
    /// A declaration of a variable with a value, `let x: T = rv;`
    Let(VarId, ExprTy, RValue),
    /// An exists destructuring, `let (x, h): (exists x: T, P x) = rv;`
    ExElim(ExElimKind, Ty, RValue),
}

/// A terminator is the final statement in a basic block. Anything with nontrivial control flow
/// is a terminator, and it determines where to jump afterward.
#[derive(Debug)]
pub enum Terminator {
    /// A `goto label(x -> arg,*);` statement: unconditionally jump to the basic block `label`.
    /// Each `x` is a variable in the context of the target and `arg` is an operand evaluated
    /// in the current basic block context. Variables in the target context but not the source
    /// must be given; those in both are optional, and keep their values when not given.
    Jump(BlockId, Vec<(VarId, Operand)>),
    /// A `return(x -> arg,*);` statement: unconditionally return from the function.
    /// Each `x` is a variable in the function returns.
    Return(Vec<(VarId, Operand)>),
    /// A `unreachable e;` statement takes a proof `e` of false and cancels this basic block.
    Unreachable(Operand),
    /// A branch expression `if cond {h. goto l1} else {h'. goto l2}`: the context of `l1`
    /// extends the current one with `h: cond`, that of `l2` with `h': !cond`.
    If(Operand, [(VarId, BlockId); 2]),
    /// An assert expression `if cond {h. goto l1} else {fail}`: like a branch, but with no
    /// actual `fail` block to jump to.
    Assert(Operand, VarId, BlockId),
}

impl Terminator {
    /// The blocks that this terminator may jump to.
    pub open spec fn targets(&self) -> Seq<BlockId> {
        match self {
            Terminator::Jump(b, _) => seq![*b],
            Terminator::Return(_) => Seq::empty(),
            Terminator::Unreachable(_) => Seq::empty(),
            Terminator::If(_, arms) => seq![arms[0].1, arms[1].1],
            Terminator::Assert(_, _, b) => seq![*b],
        }
    }

    /// The blocks that this terminator may jump to.
    pub fn successors(&self) -> (r: Vec<BlockId>)
        ensures
            r@ == self.targets(),
    {
        let mut out: Vec<BlockId> = Vec::new();
        match self {
            Terminator::Jump(b, _) => out.push(*b),
            Terminator::Return(_) => {},
            Terminator::Unreachable(_) => {},
            Terminator::If(_, arms) => {
                out.push(arms[0].1);
                out.push(arms[1].1);
            },
            Terminator::Assert(_, _, b) => out.push(*b),
        }
        assert(out@ =~= self.targets());
        out
    }
}

/// A basic block, which consists of an initial context (containing the logical parameters to
/// the block), followed by a list of statements, and ending with a terminator. The terminator
/// is absent only during MIR construction, and marks an "unfinished" block.
#[derive(Debug)]
pub struct BasicBlock {
    /// The initial context on entry to the block.
    pub ctx: CtxId,
    /// The list of statements, which may extend the context.
    pub stmts: Vec<Statement>,
    /// The final statement, which may jump to another basic block or perform another control
    /// flow function.
    pub term: Option<Terminator>,
}

impl BasicBlock {
    /// A block with no statements.
    fn new(ctx: CtxId, term: Option<Terminator>) -> (r: BasicBlock)
        ensures
            r.ctx == ctx,
            r.stmts@.len() == 0,
            r.term == term,
    {
        BasicBlock { ctx, stmts: Vec::new(), term }
    }

    /// Finish this basic block by adding the terminator.
    /// Terminating a block that is already terminated is a bug.
    pub fn terminate(&mut self, term: Terminator)
        requires
            old(self).term is None,
        ensures
            final(self).term == Some(term),
            final(self).ctx == old(self).ctx,
            final(self).stmts == old(self).stmts,
    {
        self.term = Some(term);
    }
}

/// `b` has a terminator, and it jumps only to blocks numbered below `n`.
pub open spec fn terminated_within(b: BasicBlock, n: int) -> bool {
    match b.term {
        Some(t) => forall|k: int| 0 <= k < t.targets().len() ==> t.targets()[k].0 < n,
        None => false,
    }
}

/// A CFG, or control flow graph, for a function. This consists of a set of basic blocks,
/// with block ID 0 being the entry block. The `ctxs` is the context data used to supply the
/// logical context at the beginning of each basic block.
#[derive(Debug)]
pub struct Cfg {
    /// The set of logical contexts for the basic blocks.
    pub ctxs: Contexts,
    /// The set of basic blocks, containing the actual code.
    pub blocks: Vec<BasicBlock>,
}

impl Cfg {
    /// Every block is terminated, and every terminator jumps only to blocks of this CFG.
    pub open spec fn complete(&self) -> bool {
        forall|i: int|
            0 <= i < self.blocks@.len() ==> terminated_within(#[trigger] self.blocks@[i], self.blocks@.len() as int)
    }

    /// A CFG with only the root context and no blocks.
    pub fn new() -> (r: Cfg)
        ensures
            r.ctxs.wf(),
            r.ctxs.0@.len() == 1,
            r.blocks@.len() == 0,
    {
        Cfg { ctxs: Contexts::new(), blocks: Vec::new() }
    }

    /// Start a new basic block with the given initial context. This block starts unfinished,
    /// that is, with an empty `Terminator`; the terminator must be filled by the time MIR
    /// construction is complete.
    pub fn new_block(&mut self, parent: CtxId) -> (r: BlockId)
        requires
            old(self).blocks@.len() < u32::MAX,
        ensures
            r.0 == old(self).blocks@.len(),
            final(self).ctxs == old(self).ctxs,
            final(self).blocks@.len() == old(self).blocks@.len() + 1,
            final(self).blocks@.subrange(0, r.0 as int) == old(self).blocks@,
            final(self).blocks@[r.0 as int].ctx == parent,
            final(self).blocks@[r.0 as int].stmts@.len() == 0,
            final(self).blocks@[r.0 as int].term is None,
    {
        let id = BlockId(self.blocks.len() as u32);
        self.blocks.push(BasicBlock::new(parent, None));
        assert(self.blocks@.subrange(0, id.0 as int) =~= old(self).blocks@);
        id
    }

    /// Decides `complete`: every block is terminated and jumps only inside this CFG.
    pub fn is_complete(&self) -> (r: bool)
        ensures
            r == self.complete(),
    {
        let n = self.blocks.len();
        let mut i: usize = 0;
        while i < n
            invariant
                n == self.blocks@.len(),
                i <= n,
                forall|j: int| 0 <= j < i ==> terminated_within(#[trigger] self.blocks@[j], n as int),
            decreases n - i,
        {
            match &self.blocks[i].term {
                None => {
                    assert(!(self.blocks@[i as int].term is Some));
                    return false;
                },
                Some(t) => {
                    assert(self.blocks@[i as int].term == Some(*t));
                    let succ = t.successors();
                    let mut k: usize = 0;
                    while k < succ.len()
                        invariant
                            succ@ == t.targets(),
                            k <= succ@.len(),
                            n == self.blocks@.len(),
                            i < n,
                            self.blocks@[i as int].term == Some(*t),
                            forall|m: int| 0 <= m < k ==> succ@[m].0 < n,
                        decreases succ@.len() - k,
                    {
                        if succ[k].0 as usize >= n {
                            assert(self.blocks@[i as int].term == Some(*t));
                            assert(t.targets()[k as int].0 >= n);
                            assert(!terminated_within(self.blocks@[i as int], n as int));
                            return false;
                        }
                        k += 1;
                    }
                },
            }
            i += 1;
        }
        true
    }
}

/// `v` is one of the variables of `s`.
pub open spec fn binds(s: Seq<(VarId, ExprTy)>, v: VarId) -> bool {
    exists|i: int| 0 <= i < s.len() && (#[trigger] s[i]).0 == v
}

/// The arguments of a jump from a block with context `src` to a block with context `tgt` are
/// right: every argument names a variable of the target context, and every variable of the
/// target context that the source context lacks is given.
pub open spec fn jump_args_ok(
    ctxs: &Contexts,
    src: CtxId,
    tgt: CtxId,
    args: Seq<(VarId, Operand)>,
) -> bool {
    &&& forall|k: int| 0 <= k < args.len() ==> binds(ctxs.ctx(tgt), (#[trigger] args[k]).0)
    &&& forall|v: VarId|
        binds(ctxs.ctx(tgt), v) && !binds(ctxs.ctx(src), v) ==> exists|k: int|
            0 <= k < args.len() && (#[trigger] args[k]).0 == v
}

/// Membership in a sequence and in its reverse agree.
proof fn lemma_binds_reverse(s: Seq<(VarId, ExprTy)>, v: VarId)
    ensures
        binds(s.reverse(), v) == binds(s, v),
{
    if binds(s, v) {
        let i = choose|i: int| 0 <= i < s.len() && (#[trigger] s[i]).0 == v;
        assert(s.reverse()[s.len() - 1 - i] == s[i]);
    }
    if binds(s.reverse(), v) {
        let i = choose|i: int| 0 <= i < s.reverse().len() && (#[trigger] s.reverse()[i]).0 == v;
        assert(s.reverse()[i] == s[s.len() - 1 - i]);
    }
}

/// Whether `v` is one of the variables of `list`.
fn list_binds(list: &Vec<(VarId, ExprTy)>, v: VarId) -> (r: bool)
    ensures
        r == binds(list@, v),
{
    let mut i: usize = 0;
    while i < list.len()
        invariant
            i <= list@.len(),
            forall|j: int| 0 <= j < i ==> (#[trigger] list@[j]).0 != v,
        decreases list@.len() - i,
    {
        if list[i].0 == v {
            return true;
        }
        i += 1;
    }
    false
}

impl Cfg {
    /// Decides `jump_args_ok` for a jump from a block with context `src` to block `target`.
    pub fn check_jump(&self, src: CtxId, target: BlockId, args: &Vec<(VarId, Operand)>) -> (r: bool)
        requires
            self.ctxs.wf(),
            self.ctxs.valid_id(src),
            target.0 < self.blocks@.len(),
            self.ctxs.valid_id(self.blocks@[target.0 as int].ctx),
        ensures
            r == jump_args_ok(&self.ctxs, src, self.blocks@[target.0 as int].ctx, args@),
    {
        let tgt = self.blocks[target.0 as usize].ctx;
        assert(tgt == self.blocks@[target.0 as int].ctx);
        let src_vars = self.ctxs.rev_iter(src);
        let tgt_vars = self.ctxs.rev_iter(tgt);
        proof {
            assert forall|v: VarId| binds(tgt_vars@, v) == binds(self.ctxs.ctx(tgt), v)
                && binds(src_vars@, v) == binds(self.ctxs.ctx(src), v) by {
                lemma_binds_reverse(self.ctxs.ctx(tgt), v);
                lemma_binds_reverse(self.ctxs.ctx(src), v);
            }
        }
        let mut k: usize = 0;
        while k < args.len()
            invariant
                k <= args@.len(),
                target.0 < self.blocks@.len(),
                tgt == self.blocks@[target.0 as int].ctx,
                tgt_vars@ == self.ctxs.ctx(tgt).reverse(),
                forall|v: VarId| binds(tgt_vars@, v) == binds(self.ctxs.ctx(tgt), v),
                forall|m: int| 0 <= m < k ==> binds(self.ctxs.ctx(tgt), (#[trigger] args@[m]).0),
            decreases args@.len() - k,
        {
            if !list_binds(&tgt_vars, args[k].0) {
                assert(!binds(self.ctxs.ctx(tgt), args@[k as int].0));
                assert(!jump_args_ok(&self.ctxs, src, tgt, args@));
                return false;
            }
            k += 1;
        }
        let mut i: usize = 0;
        while i < tgt_vars.len()
            invariant
                i <= tgt_vars@.len(),
                target.0 < self.blocks@.len(),
                tgt == self.blocks@[target.0 as int].ctx,
                forall|v: VarId| binds(tgt_vars@, v) == binds(self.ctxs.ctx(tgt), v),
                forall|v: VarId| binds(src_vars@, v) == binds(self.ctxs.ctx(src), v),
                forall|j: int| 0 <= j < i ==> binds(src_vars@, (#[trigger] tgt_vars@[j]).0)
                    || exists|k: int| 0 <= k < args@.len() && (#[trigger] args@[k]).0 == tgt_vars@[j].0,
            decreases tgt_vars@.len() - i,
        {
            let v = tgt_vars[i].0;
            if !list_binds(&src_vars, v) {
                let mut found = false;
                let mut k: usize = 0;
                while k < args.len()
                    invariant
                        k <= args@.len(),
                        !found ==> forall|m: int| 0 <= m < k ==> (#[trigger] args@[m]).0 != v,
                        found ==> exists|m: int| 0 <= m < args@.len() && (#[trigger] args@[m]).0 == v,
                    decreases args@.len() - k,
                {
                    if args[k].0 == v {
                        found = true;
                    }
                    k += 1;
                }
                if !found {
                    assert(tgt_vars@[i as int].0 == v);
                    assert(binds(tgt_vars@, v));
                    assert(binds(self.ctxs.ctx(tgt), v) && !binds(self.ctxs.ctx(src), v));
                    assert(!exists|m: int| 0 <= m < args@.len() && (#[trigger] args@[m]).0 == v);
                    assert(!jump_args_ok(&self.ctxs, src, tgt, args@));
                    return false;
                }
            }
            i += 1;
        }
        proof {
            assert forall|v: VarId|
                binds(self.ctxs.ctx(tgt), v) && !binds(self.ctxs.ctx(src), v) implies exists|k: int|
                    0 <= k < args@.len() && (#[trigger] args@[k]).0 == v by {
                assert(binds(tgt_vars@, v));
                let j = choose|j: int| 0 <= j < tgt_vars@.len() && (#[trigger] tgt_vars@[j]).0 == v;
                assert(binds(src_vars@, tgt_vars@[j].0) || exists|k: int| 0 <= k < args@.len() && (#[trigger] args@[k]).0 == tgt_vars@[j].0);
            }
        }
        true
    }
}

/// The kind of a top level procedure declaration.
#[derive(Copy, Clone, Debug, PartialEq, Eq, Structural)]
pub enum ProcKind {
    /// A pure function.
    Func,
    /// A procedure, which may have side effects.
    Proc,
    /// An intrinsic, implemented by the compiler.
    Intrinsic,
}

/// A procedure (or function or intrinsic), a top level item similar to function declarations
/// in C.
#[derive(Debug)]
pub struct Proc {
    /// The type of declaration: `func`, `proc`, or `intrinsic`.
    pub kind: ProcKind,
    /// The name of the procedure.
    pub name: Spanned<AtomId>,
    /// The number of type arguments
    pub tyargs: u32,
    /// The arguments of the procedure.
    pub args: Vec<Arg>,
    /// The return values of the procedure. (Functions and procedures return multiple values.)
    pub rets: Vec<Arg>,
    /// The body of the procedure.
    pub body: Cfg,
}

/// `b` is `a` with every type mapped as `ty_remapped` says.
pub open spec fn tys_remapped(a: Seq<Ty>, b: Seq<Ty>, r: &Remapper) -> bool
    decreases a,
{
    &&& b.len() == a.len()
    &&& forall|i: int| 0 <= i < a.len() ==> ty_remapped(&*a[i], &*b[i], r)
}

/// `b` is `a` with every expression mapped as `expr_remapped` says.
pub open spec fn exprs_remapped(a: Seq<Expr>, b: Seq<Expr>, r: &Remapper) -> bool
    decreases a,
{
    &&& b.len() == a.len()
    &&& forall|i: int| 0 <= i < a.len() ==> expr_remapped(&*a[i], &*b[i], r)
}

/// `b` is `a` with every argument's type mapped as `ty_remapped` says.
pub open spec fn args_remapped(a: Seq<Arg>, b: Seq<Arg>, r: &Remapper) -> bool
    decreases a,
{
    &&& b.len() == a.len()
    &&& forall|i: int|
        0 <= i < a.len() ==> b[i].attr == a[i].attr && b[i].var == a[i].var && ty_remapped(
            &*a[i].ty,
            &*b[i].ty,
            r,
        )
}

/// `b` is the type `a` with its atoms and term constructors mapped through `r`: the same
/// tree, with each user type former, constant, called function and embedded MM0 term
/// renamed.
pub open spec fn ty_remapped(a: &TyKind, b: &TyKind, r: &Remapper) -> bool
    decreases a,
{
    match (a, b) {
        (TyKind::Unit, TyKind::Unit) => true,
        (TyKind::True, TyKind::True) => true,
        (TyKind::False, TyKind::False) => true,
        (TyKind::Bool, TyKind::Bool) => true,
        (TyKind::Var(v), TyKind::Var(w)) => v == w,
        (TyKind::Int(i), TyKind::Int(j)) => i == j,
        (TyKind::Array(t, n), TyKind::Array(u, m)) => ty_remapped(&**t, &**u, r) && expr_remapped(&**n, &**m, r),
        (TyKind::Own(t), TyKind::Own(u)) => ty_remapped(&**t, &**u, r),
        (TyKind::Ref(l, t), TyKind::Ref(k, u)) => l == k && ty_remapped(&**t, &**u, r),
        (TyKind::RefSn(e), TyKind::RefSn(f)) => expr_remapped(&**e, &**f, r),
        (TyKind::Sn(e, t), TyKind::Sn(f, u)) => expr_remapped(&**e, &**f, r) && ty_remapped(&**t, &**u, r),
        (TyKind::Struct(xs), TyKind::Struct(ys)) => args_remapped(xs@, ys@, r),
        (TyKind::All(v, p, t), TyKind::All(w, q, u)) => v == w && ty_remapped(&**p, &**q, r) && ty_remapped(&**t, &**u, r),
        (TyKind::Imp(p, t), TyKind::Imp(q, u)) => ty_remapped(&**p, &**q, r) && ty_remapped(&**t, &**u, r),
        (TyKind::Wand(p, t), TyKind::Wand(q, u)) => ty_remapped(&**p, &**q, r) && ty_remapped(&**t, &**u, r),
        (TyKind::Not(t), TyKind::Not(u)) => ty_remapped(&**t, &**u, r),
        (TyKind::And(ts), TyKind::And(us)) => tys_remapped(ts@, us@, r),
        (TyKind::Or(ts), TyKind::Or(us)) => tys_remapped(ts@, us@, r),
        (TyKind::If(c, t, e), TyKind::If(d, u, f)) => expr_remapped(&**c, &**d, r) && ty_remapped(&**t, &**u, r) && ty_remapped(&**e, &**f, r),
        (TyKind::GhostTy(t), TyKind::GhostTy(u)) => ty_remapped(&**t, &**u, r),
        (TyKind::Uninit(t), TyKind::Uninit(u)) => ty_remapped(&**t, &**u, r),
        (TyKind::Pure(e), TyKind::Pure(f)) => expr_remapped(&**e, &**f, r),
        (TyKind::User(g, ts, es), TyKind::User(h, us, fs)) => *h == r.spec_atom(*g) && tys_remapped(ts@, us@, r) && exprs_remapped(es@, fs@, r),
        (TyKind::Heap(e, v, t), TyKind::Heap(f, w, u)) => expr_remapped(&**e, &**f, r) && expr_remapped(&**v, &**w, r) && ty_remapped(&**t, &**u, r),
        (TyKind::HasTy(e, t), TyKind::HasTy(f, u)) => expr_remapped(&**e, &**f, r) && ty_remapped(&**t, &**u, r),
        (TyKind::Input, TyKind::Input) => true,
        (TyKind::Output, TyKind::Output) => true,
        (TyKind::Moved(t), TyKind::Moved(u)) => ty_remapped(&**t, &**u, r),
        _ => false,
    }
}

/// `b` is the expression `a` with its atoms and term constructors mapped through `r`.
pub open spec fn expr_remapped(a: &ExprKind, b: &ExprKind, r: &Remapper) -> bool
    decreases a,
{
    match (a, b) {
        (ExprKind::Unit, ExprKind::Unit) => true,
        (ExprKind::Var(v), ExprKind::Var(w)) => v == w,
        (ExprKind::Const(c), ExprKind::Const(d)) => *d == r.spec_atom(*c),
        (ExprKind::Bool(x), ExprKind::Bool(y)) => x == y,
        (ExprKind::Int(n), ExprKind::Int(m)) => m.neg == n.neg && m.mag@ == n.mag@,
        (ExprKind::Unop(o, e), ExprKind::Unop(p, f)) => o == p && expr_remapped(&**e, &**f, r),
        (ExprKind::Binop(o, e1, e2), ExprKind::Binop(p, f1, f2)) => o == p && expr_remapped(&**e1, &**f1, r) && expr_remapped(&**e2, &**f2, r),
        (ExprKind::Index(e1, e2), ExprKind::Index(f1, f2)) => expr_remapped(&**e1, &**f1, r) && expr_remapped(&**e2, &**f2, r),
        (ExprKind::Slice(e1, e2, e3), ExprKind::Slice(f1, f2, f3)) => expr_remapped(&**e1, &**f1, r) && expr_remapped(&**e2, &**f2, r) && expr_remapped(&**e3, &**f3, r),
        (ExprKind::Proj(e, i), ExprKind::Proj(f, j)) => i == j && expr_remapped(&**e, &**f, r),
        (ExprKind::UpdateIndex(e1, e2, e3), ExprKind::UpdateIndex(f1, f2, f3)) => expr_remapped(&**e1, &**f1, r) && expr_remapped(&**e2, &**f2, r) && expr_remapped(&**e3, &**f3, r),
        (ExprKind::UpdateSlice(e1, e2, e3, e4), ExprKind::UpdateSlice(f1, f2, f3, f4)) => expr_remapped(&**e1, &**f1, r) && expr_remapped(&**e2, &**f2, r) && expr_remapped(&**e3, &**f3, r) && expr_remapped(&**e4, &**f4, r),
        (ExprKind::UpdateProj(e1, i, e2), ExprKind::UpdateProj(f1, j, f2)) => i == j && expr_remapped(&**e1, &**f1, r) && expr_remapped(&**e2, &**f2, r),
        (ExprKind::List(es), ExprKind::List(fs)) => exprs_remapped(es@, fs@, r),
        (ExprKind::Array(es), ExprKind::Array(fs)) => exprs_remapped(es@, fs@, r),
        (ExprKind::Sizeof(t), ExprKind::Sizeof(u)) => ty_remapped(&**t, &**u, r),
        (ExprKind::Ref(e), ExprKind::Ref(f)) => expr_remapped(&**e, &**f, r),
        (ExprKind::Mm0(e), ExprKind::Mm0(f)) => exprs_remapped(e.subst@, f.subst@, r) && node_remapped(&*e.expr, &*f.expr, r),
        (ExprKind::Call { f, tys, args }, ExprKind::Call { f: g, tys: tys2, args: args2 }) => *g == r.spec_atom(*f) && tys_remapped(tys@, tys2@, r) && exprs_remapped(args@, args2@, r),
        (ExprKind::If { cond, then, els }, ExprKind::If { cond: c2, then: t2, els: e2 }) => expr_remapped(&**cond, &**c2, r) && expr_remapped(&**then, &**t2, r) && expr_remapped(&**els, &**e2, r),
        _ => false,
    }
}

/// The types of `v`, each mapped through `r`.
pub fn remap_tys(v: &Vec<Ty>, r: &Remapper) -> (res: Vec<Ty>)
    ensures
        tys_remapped(v@, res@, r),
    decreases v,
{
    let mut out: Vec<Ty> = Vec::new();
    let mut k: usize = 0;
    while k < v.len()
        invariant
            k <= v@.len(),
            out@.len() == k,
            forall|i: int| 0 <= i < k ==> ty_remapped(&*v@[i], &*out@[i], r),
        decreases v@.len() - k,
    {
        proof {
            assert(decreases_to!(*v => v@));
            assert(decreases_to!(v@ => v@[k as int]));
        }
        out.push(Rc::new(v[k].remap(r)));
        k += 1;
    }
    out
}

/// The expressions of `v`, each mapped through `r`.
pub fn remap_exprs(v: &Vec<Expr>, r: &Remapper) -> (res: Vec<Expr>)
    ensures
        exprs_remapped(v@, res@, r),
    decreases v,
{
    let mut out: Vec<Expr> = Vec::new();
    let mut k: usize = 0;
    while k < v.len()
        invariant
            k <= v@.len(),
            out@.len() == k,
            forall|i: int| 0 <= i < k ==> expr_remapped(&*v@[i], &*out@[i], r),
        decreases v@.len() - k,
    {
        proof {
            assert(decreases_to!(*v => v@));
            assert(decreases_to!(v@ => v@[k as int]));
        }
        out.push(Rc::new(v[k].remap(r)));
        k += 1;
    }
    out
}

/// The arguments of `v`, each with its type mapped through `r`.
pub fn remap_args(v: &Vec<Arg>, r: &Remapper) -> (res: Vec<Arg>)
    ensures
        args_remapped(v@, res@, r),
    decreases v,
{
    let mut out: Vec<Arg> = Vec::new();
    let mut k: usize = 0;
    while k < v.len()
        invariant
            k <= v@.len(),
            out@.len() == k,
            forall|i: int|
                0 <= i < k ==> out@[i].attr == v@[i].attr && out@[i].var == v@[i].var && ty_remapped(
                    &*v@[i].ty,
                    &*out@[i].ty,
                    r,
                ),
        decreases v@.len() - k,
    {
        proof {
            assert(decreases_to!(*v => v@));
            assert(decreases_to!(v@ => v@[k as int]));
            assert(decreases_to!(v@[k as int] => v@[k as int].ty));
        }
        out.push(Arg { attr: v[k].attr, var: v[k].var, ty: Rc::new(v[k].ty.remap(r)) });
        k += 1;
    }
    out
}

impl TyKind {
    /// This type with its atoms and term constructors mapped through `r`.
    pub fn remap(&self, r: &Remapper) -> (res: TyKind)
        ensures
            ty_remapped(self, &res, r),
        decreases self,
    {
        match self {
            TyKind::Unit => TyKind::Unit,
            TyKind::True => TyKind::True,
            TyKind::False => TyKind::False,
            TyKind::Bool => TyKind::Bool,
            TyKind::Var(v) => TyKind::Var(*v),
            TyKind::Int(ity) => TyKind::Int(*ity),
            TyKind::Array(ty, n) => TyKind::Array(Rc::new(ty.remap(r)), Rc::new(n.remap(r))),
            TyKind::Own(ty) => TyKind::Own(Rc::new(ty.remap(r))),
            TyKind::Ref(lft, ty) => TyKind::Ref(*lft, Rc::new(ty.remap(r))),
            TyKind::RefSn(e) => TyKind::RefSn(Rc::new(e.remap(r))),
            TyKind::Sn(a, ty) => TyKind::Sn(Rc::new(a.remap(r)), Rc::new(ty.remap(r))),
            TyKind::Struct(args) => TyKind::Struct(remap_args(args, r)),
            TyKind::All(v, pat, ty) => TyKind::All(*v, Rc::new(pat.remap(r)), Rc::new(ty.remap(r))),
            TyKind::Imp(p, q) => TyKind::Imp(Rc::new(p.remap(r)), Rc::new(q.remap(r))),
            TyKind::Wand(p, q) => TyKind::Wand(Rc::new(p.remap(r)), Rc::new(q.remap(r))),
            TyKind::Not(p) => TyKind::Not(Rc::new(p.remap(r))),
            TyKind::And(ps) => TyKind::And(remap_tys(ps, r)),
            TyKind::Or(ps) => TyKind::Or(remap_tys(ps, r)),
            TyKind::If(c, t, e) => TyKind::If(Rc::new(c.remap(r)), Rc::new(t.remap(r)), Rc::new(e.remap(r))),
            TyKind::GhostTy(ty) => TyKind::GhostTy(Rc::new(ty.remap(r))),
            TyKind::Uninit(ty) => TyKind::Uninit(Rc::new(ty.remap(r))),
            TyKind::Pure(e) => TyKind::Pure(Rc::new(e.remap(r))),
            TyKind::User(f, tys, es) => TyKind::User(r.atom(*f), remap_tys(tys, r), remap_exprs(es, r)),
            TyKind::Heap(e, v, ty) => TyKind::Heap(Rc::new(e.remap(r)), Rc::new(v.remap(r)), Rc::new(ty.remap(r))),
            TyKind::HasTy(e, ty) => TyKind::HasTy(Rc::new(e.remap(r)), Rc::new(ty.remap(r))),
            TyKind::Input => TyKind::Input,
            TyKind::Output => TyKind::Output,
            TyKind::Moved(ty) => TyKind::Moved(Rc::new(ty.remap(r))),
        }
    }
}

impl ExprKind {
    /// This expression with its atoms and term constructors mapped through `r`.
    pub fn remap(&self, r: &Remapper) -> (res: ExprKind)
        ensures
            expr_remapped(self, &res, r),
        decreases self,
    {
        match self {
            ExprKind::Unit => ExprKind::Unit,
            ExprKind::Var(v) => ExprKind::Var(*v),
            ExprKind::Const(c) => ExprKind::Const(r.atom(*c)),
            ExprKind::Bool(b) => ExprKind::Bool(*b),
            ExprKind::Int(n) => ExprKind::Int(n.copied()),
            ExprKind::Unop(op, e) => ExprKind::Unop(*op, Rc::new(e.remap(r))),
            ExprKind::Binop(op, e1, e2) => ExprKind::Binop(*op, Rc::new(e1.remap(r)), Rc::new(e2.remap(r))),
            ExprKind::Index(a, i) => ExprKind::Index(Rc::new(a.remap(r)), Rc::new(i.remap(r))),
            ExprKind::Slice(a, i, l) => ExprKind::Slice(Rc::new(a.remap(r)), Rc::new(i.remap(r)), Rc::new(l.remap(r))),
            ExprKind::Proj(a, i) => ExprKind::Proj(Rc::new(a.remap(r)), *i),
            ExprKind::UpdateIndex(a, i, v) => ExprKind::UpdateIndex(Rc::new(a.remap(r)), Rc::new(i.remap(r)), Rc::new(v.remap(r))),
            ExprKind::UpdateSlice(a, i, l, v) => ExprKind::UpdateSlice(
                Rc::new(a.remap(r)),
                Rc::new(i.remap(r)),
                Rc::new(l.remap(r)),
                Rc::new(v.remap(r)),
            ),
            ExprKind::UpdateProj(a, i, v) => ExprKind::UpdateProj(Rc::new(a.remap(r)), *i, Rc::new(v.remap(r))),
            ExprKind::List(es) => ExprKind::List(remap_exprs(es, r)),
            ExprKind::Array(es) => ExprKind::Array(remap_exprs(es, r)),
            ExprKind::Sizeof(ty) => ExprKind::Sizeof(Rc::new(ty.remap(r))),
            ExprKind::Ref(e) => ExprKind::Ref(Rc::new(e.remap(r))),
            ExprKind::Mm0(e) => {
                proof {
                    assert(decreases_to!(*self => (*self)->Mm0_0));
                    assert(decreases_to!((*self)->Mm0_0 => e.subst));
                }
                ExprKind::Mm0(crate::types::Mm0Expr { subst: remap_exprs(&e.subst, r), expr: Rc::new(e.expr.remap(r)) })
            },
            ExprKind::Call { f, tys, args } => ExprKind::Call { f: r.atom(*f), tys: remap_tys(tys, r), args: remap_exprs(args, r) },
            ExprKind::If { cond, then, els } => ExprKind::If {
                cond: Rc::new(cond.remap(r)),
                then: Rc::new(then.remap(r)),
                els: Rc::new(els.remap(r)),
            },
        }
    }
}

/// `b` is the typed expression `a` mapped through `r`.
pub open spec fn ety_remapped(a: ExprTy, b: ExprTy, r: &Remapper) -> bool {
    &&& match (a.0, b.0) {
        (None, None) => true,
        (Some(e), Some(f)) => expr_remapped(&*e, &*f, r),
        _ => false,
    }
    &&& ty_remapped(&*a.1, &*b.1, r)
}

/// `b` is the constant `a` mapped through `r`: its type and value, and the atom of a named
/// constant.
pub open spec fn constant_remapped(a: Constant, b: Constant, r: &Remapper) -> bool {
    &&& ety_remapped(a.ety, b.ety, r)
    &&& match a.k {
        ConstKind::Const(x) => b.k == ConstKind::Const(r.spec_atom(x)),
        _ => b.k == a.k,
    }
}

/// The two places are the same.
pub open spec fn same_place(a: Place, b: Place) -> bool {
    a.local == b.local && a.proj@ == b.proj@
}

/// `b` is the operand `a` mapped through `r`: places stay, constants are mapped.
pub open spec fn operand_remapped(a: Operand, b: Operand, r: &Remapper) -> bool {
    match (a, b) {
        (Operand::Copy(p), Operand::Copy(q)) => same_place(p, q),
        (Operand::Move(p), Operand::Move(q)) => same_place(p, q),
        (Operand::Ref(p), Operand::Ref(q)) => same_place(p, q),
        (Operand::Const(c), Operand::Const(d)) => constant_remapped(*c, *d, r),
        _ => false,
    }
}

/// `b` is the rvalue `a` mapped through `r`.
pub open spec fn rvalue_remapped(a: RValue, b: RValue, r: &Remapper) -> bool {
    match (a, b) {
        (RValue::Use(o), RValue::Use(p)) => operand_remapped(o, p, r),
        (RValue::Unop(f, o), RValue::Unop(g, p)) => f == g && operand_remapped(o, p, r),
        (RValue::Binop(f, o1, o2), RValue::Binop(g, p1, p2)) => f == g && operand_remapped(o1, p1, r)
            && operand_remapped(o2, p2, r),
        (RValue::Cast(x, CastKind::Sn(h)), RValue::Cast(y, CastKind::Sn(k))) => same_place(x, y) && match (h, k) {
            (None, None) => true,
            (Some(o), Some(p)) => operand_remapped(o, p, r),
            _ => false,
        },
        (RValue::MakeGhost(o), RValue::MakeGhost(p)) => operand_remapped(o, p, r),
        _ => false,
    }
}

/// `b` is the statement `a` mapped through `r`.
pub open spec fn statement_remapped(a: Statement, b: Statement, r: &Remapper) -> bool {
    match (a, b) {
        (Statement::Let(x, e, v), Statement::Let(y, f, w)) => x == y && ety_remapped(e, f, r) && rvalue_remapped(v, w, r),
        (Statement::ExElim(ExElimKind::Own(xs), t, v), Statement::ExElim(ExElimKind::Own(ys), u, w)) => {
            &&& xs[0].0 == ys[0].0
            &&& xs[1].0 == ys[1].0
            &&& ty_remapped(&*xs[0].1, &*ys[0].1, r)
            &&& ty_remapped(&*xs[1].1, &*ys[1].1, r)
            &&& ty_remapped(&*t, &*u, r)
            &&& rvalue_remapped(v, w, r)
        },
        _ => false,
    }
}

/// `b` is the list of assignments `a` with each operand mapped through `r`.
pub open spec fn assigns_remapped(a: Seq<(VarId, Operand)>, b: Seq<(VarId, Operand)>, r: &Remapper) -> bool {
    &&& b.len() == a.len()
    &&& forall|i: int| 0 <= i < a.len() ==> b[i].0 == a[i].0 && operand_remapped(a[i].1, b[i].1, r)
}

/// `b` is the terminator `a` mapped through `r`: the same jumps, with operands mapped.
pub open spec fn terminator_remapped(a: Terminator, b: Terminator, r: &Remapper) -> bool {
    match (a, b) {
        (Terminator::Jump(l, xs), Terminator::Jump(m, ys)) => l == m && assigns_remapped(xs@, ys@, r),
        (Terminator::Return(xs), Terminator::Return(ys)) => assigns_remapped(xs@, ys@, r),
        (Terminator::Unreachable(o), Terminator::Unreachable(p)) => operand_remapped(o, p, r),
        (Terminator::If(o, xs), Terminator::If(p, ys)) => xs == ys && operand_remapped(o, p, r),
        (Terminator::Assert(o, v, l), Terminator::Assert(p, w, m)) => v == w && l == m && operand_remapped(o, p, r),
        _ => false,
    }
}

/// A copy of a typed expression, mapped through `r`.
pub fn remap_ety(e: &ExprTy, r: &Remapper) -> (res: ExprTy)
    ensures
        ety_remapped(*e, res, r),
{
    let ex = match &e.0 {
        Some(x) => Some(Rc::new(x.remap(r))),
        None => None,
    };
    (ex, Rc::new(e.1.remap(r)))
}

impl Place {
    /// A copy of this place.
    pub fn remap(&self, _r: &Remapper) -> (res: Place)
        ensures
            same_place(*self, res),
    {
        let mut proj: Vec<Projection> = Vec::new();
        let mut k: usize = 0;
        while k < self.proj.len()
            invariant
                k <= self.proj@.len(),
                proj@ == self.proj@.subrange(0, k as int),
            decreases self.proj@.len() - k,
        {
            proj.push(self.proj[k]);
            k += 1;
        }
        assert(proj@ =~= self.proj@);
        Place { local: self.local, proj }
    }
}

impl Constant {
    /// This constant mapped through `r`.
    pub fn remap(&self, r: &Remapper) -> (res: Constant)
        ensures
            constant_remapped(*self, res, r),
    {
        let k = match self.k {
            ConstKind::Const(a) => ConstKind::Const(r.atom(a)),
            other => other,
        };
        Constant { ety: remap_ety(&self.ety, r), k }
    }
}

impl Operand {
    /// This operand mapped through `r`.
    pub fn remap(&self, r: &Remapper) -> (res: Operand)
        ensures
            operand_remapped(*self, res, r),
    {
        match self {
            Operand::Copy(x) => Operand::Copy(x.remap(r)),
            Operand::Move(x) => Operand::Move(x.remap(r)),
            Operand::Ref(x) => Operand::Ref(x.remap(r)),
            Operand::Const(c) => Operand::Const(Box::new(c.remap(r))),
        }
    }
}

impl RValue {
    /// This rvalue mapped through `r`.
    pub fn remap(&self, r: &Remapper) -> (res: RValue)
        ensures
            rvalue_remapped(*self, res, r),
    {
        match self {
            RValue::Use(e) => RValue::Use(e.remap(r)),
            RValue::Unop(op, e) => RValue::Unop(*op, e.remap(r)),
            RValue::Binop(op, e1, e2) => RValue::Binop(*op, e1.remap(r), e2.remap(r)),
            RValue::Cast(e, CastKind::Sn(h)) => {
                let h2 = match h {
                    Some(o) => Some(o.remap(r)),
                    None => None,
                };
                RValue::Cast(e.remap(r), CastKind::Sn(h2))
            },
            RValue::MakeGhost(e) => RValue::MakeGhost(e.remap(r)),
        }
    }
}

impl Statement {
    /// This statement mapped through `r`.
    pub fn remap(&self, r: &Remapper) -> (res: Statement)
        ensures
            statement_remapped(*self, res, r),
    {
        match self {
            Statement::Let(x, ty, rv) => Statement::Let(*x, remap_ety(ty, r), rv.remap(r)),
            Statement::ExElim(ExElimKind::Own(xs), ty, rv) => {
                let a = (xs[0].0, Rc::new(xs[0].1.remap(r)));
                let b = (xs[1].0, Rc::new(xs[1].1.remap(r)));
                Statement::ExElim(ExElimKind::Own([a, b]), Rc::new(ty.remap(r)), rv.remap(r))
            },
        }
    }
}

/// The assignments of `v`, with each operand mapped through `r`.
fn remap_assigns(v: &Vec<(VarId, Operand)>, r: &Remapper) -> (res: Vec<(VarId, Operand)>)
    ensures
        assigns_remapped(v@, res@, r),
{
    let mut out: Vec<(VarId, Operand)> = Vec::new();
    let mut k: usize = 0;
    while k < v.len()
        invariant
            k <= v@.len(),
            out@.len() == k,
            forall|i: int| 0 <= i < k ==> out@[i].0 == v@[i].0 && operand_remapped(v@[i].1, out@[i].1, r),
        decreases v@.len() - k,
    {
        out.push((v[k].0, v[k].1.remap(r)));
        k += 1;
    }
    out
}

impl Terminator {
    /// This terminator mapped through `r`.
    pub fn remap(&self, r: &Remapper) -> (res: Terminator)
        ensures
            terminator_remapped(*self, res, r),
    {
        match self {
            Terminator::Jump(id, args) => Terminator::Jump(*id, remap_assigns(args, r)),
            Terminator::Return(args) => Terminator::Return(remap_assigns(args, r)),
            Terminator::Unreachable(o) => Terminator::Unreachable(o.remap(r)),
            Terminator::If(cond, arms) => Terminator::If(cond.remap(r), *arms),
            Terminator::Assert(cond, v, bl) => Terminator::Assert(cond.remap(r), *v, *bl),
        }
    }
}

/// `b` is the block `a` mapped through `r`: the same context, statements and terminator
/// mapped.
pub open spec fn block_remapped(a: BasicBlock, b: BasicBlock, r: &Remapper) -> bool {
    &&& b.ctx == a.ctx
    &&& b.stmts@.len() == a.stmts@.len()
    &&& forall|i: int| 0 <= i < a.stmts@.len() ==> statement_remapped(a.stmts@[i], b.stmts@[i], r)
    &&& match (a.term, b.term) {
        (None, None) => true,
        (Some(t), Some(u)) => terminator_remapped(t, u, r),
        _ => false,
    }
}

/// `b` is the context buffer `a` mapped through `r`.
pub open spec fn buf_remapped(a: CtxBuf, b: CtxBuf, r: &Remapper) -> bool {
    &&& b.parent == a.parent
    &&& b.vars@.len() == a.vars@.len()
    &&& forall|i: int|
        0 <= i < a.vars@.len() ==> b.vars@[i].0 == a.vars@[i].0 && ety_remapped(a.vars@[i].1, b.vars@[i].1, r)
}

/// `b` is the CFG `a` mapped through `r`, buffer by buffer and block by block.
pub open spec fn cfg_remapped(a: Cfg, b: Cfg, r: &Remapper) -> bool {
    &&& b.ctxs.0@.len() == a.ctxs.0@.len()
    &&& forall|i: int| 0 <= i < a.ctxs.0@.len() ==> buf_remapped(a.ctxs.0@[i], b.ctxs.0@[i], r)
    &&& b.blocks@.len() == a.blocks@.len()
    &&& forall|i: int| 0 <= i < a.blocks@.len() ==> block_remapped(a.blocks@[i], b.blocks@[i], r)
}

impl Arg {
    /// This argument with its type mapped through `r`.
    pub fn remap(&self, r: &Remapper) -> (res: Arg)
        ensures
            res.attr == self.attr,
            res.var == self.var,
            ty_remapped(&*self.ty, &*res.ty, r),
    {
        Arg { attr: self.attr, var: self.var, ty: Rc::new(self.ty.remap(r)) }
    }
}

impl BasicBlock {
    /// This block mapped through `r`.
    pub fn remap(&self, r: &Remapper) -> (res: BasicBlock)
        ensures
            block_remapped(*self, res, r),
    {
        let mut stmts: Vec<Statement> = Vec::new();
        let mut k: usize = 0;
        while k < self.stmts.len()
            invariant
                k <= self.stmts@.len(),
                stmts@.len() == k,
                forall|i: int| 0 <= i < k ==> statement_remapped(self.stmts@[i], stmts@[i], r),
            decreases self.stmts@.len() - k,
        {
            stmts.push(self.stmts[k].remap(r));
            k += 1;
        }
        let term = match &self.term {
            Some(t) => Some(t.remap(r)),
            None => None,
        };
        BasicBlock { ctx: self.ctx, stmts, term }
    }
}

impl CtxBuf {
    /// This buffer with its types mapped through `r`.
    pub fn remap(&self, r: &Remapper) -> (res: CtxBuf)
        ensures
            buf_remapped(*self, res, r),
    {
        let mut vars: Vec<(VarId, ExprTy)> = Vec::new();
        let mut k: usize = 0;
        while k < self.vars.len()
            invariant
                k <= self.vars@.len(),
                vars@.len() == k,
                forall|i: int| 0 <= i < k ==> vars@[i].0 == self.vars@[i].0 && ety_remapped(self.vars@[i].1, vars@[i].1, r),
            decreases self.vars@.len() - k,
        {
            vars.push((self.vars[k].0, remap_ety(&self.vars[k].1, r)));
            k += 1;
        }
        CtxBuf { parent: self.parent, vars }
    }
}

impl Cfg {
    /// This CFG mapped through `r`.
    pub fn remap(&self, r: &Remapper) -> (res: Cfg)
        ensures
            cfg_remapped(*self, res, r),
    {
        let mut bufs: Vec<CtxBuf> = Vec::new();
        let mut k: usize = 0;
        while k < self.ctxs.0.len()
            invariant
                k <= self.ctxs.0@.len(),
                bufs@.len() == k,
                forall|i: int| 0 <= i < k ==> buf_remapped(self.ctxs.0@[i], bufs@[i], r),
            decreases self.ctxs.0@.len() - k,
        {
            bufs.push(self.ctxs.0[k].remap(r));
            k += 1;
        }
        let mut blocks: Vec<BasicBlock> = Vec::new();
        let mut k: usize = 0;
        while k < self.blocks.len()
            invariant
                k <= self.blocks@.len(),
                blocks@.len() == k,
                forall|i: int| 0 <= i < k ==> block_remapped(self.blocks@[i], blocks@[i], r),
            decreases self.blocks@.len() - k,
        {
            blocks.push(self.blocks[k].remap(r));
            k += 1;
        }
        Cfg { ctxs: Contexts(bufs), blocks }
    }
}

impl Proc {
    /// This procedure mapped through `r`: its name, the types of its arguments and returns,
    /// and its body.
    pub fn remap(&self, r: &Remapper) -> (res: Proc)
        ensures
            res.kind == self.kind,
            res.name.span == self.name.span,
            res.name.k == r.spec_atom(self.name.k),
            res.tyargs == self.tyargs,
            args_remapped(self.args@, res.args@, r),
            args_remapped(self.rets@, res.rets@, r),
            cfg_remapped(self.body, res.body, r),
    {
        Proc {
            kind: self.kind,
            name: Spanned { span: self.name.span.copied(), k: r.atom(self.name.k) },
            tyargs: self.tyargs,
            args: remap_args(&self.args, r),
            rets: remap_args(&self.rets, r),
            body: self.body.remap(r),
        }
    }
}

} // verus!
