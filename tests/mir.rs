use std::rc::Rc;
use mm0_server::mir::{
    BlockId, Cfg, ConstKind, Constant, Contexts, CtxBufId, CtxId, ExprKind, ExprTy,
    Operand, Place, RValue, Terminator, TyKind, VarId,
};
use mm0_server::mir::{Arg, ArgAttr, Proc, ProcKind, Statement};
use mm0_server::types::{AtomId, FileSpan, IntTy, Mm0Expr, Mm0ExprNode, Remapper, Spanned, TermId};
use mm0_server::types::Size;
use mm0_server::bigint::BigInt;

fn ety() -> ExprTy {
    (None, Rc::new(TyKind::Bool))
}

fn ids(v: &[(VarId, ExprTy)]) -> Vec<u32> {
    v.iter().map(|e| e.0 .0).collect()
}

#[test]
fn context_divergence() {
    let mut ctxs = Contexts::new();
    let c1 = ctxs.extend(CtxId::root(), VarId(1), ety());
    assert_eq!(c1, CtxId(CtxBufId(0), 1));
    let c2 = ctxs.extend(c1, VarId(2), ety());
    assert_eq!(c2, CtxId(CtxBufId(0), 2));
    let c3 = ctxs.extend(c1, VarId(3), ety());
    assert_eq!(c3, CtxId(CtxBufId(1), 1));
    assert_eq!(ctxs.0[1].parent, c1);
    assert_eq!(ids(&ctxs.rev_iter(c3)), vec![3, 1]);
    assert_eq!(ids(&ctxs.rev_iter(c2)), vec![2, 1]);
    assert_eq!(ids(&ctxs.rev_iter(c1)), vec![1]);
    assert!(ctxs.rev_iter(CtxId::root()).is_empty());
}

#[test]
fn unshare_allocates_only_on_branch() {
    let mut ctxs = Contexts::new();
    let c1 = ctxs.extend(CtxId::root(), VarId(1), ety());
    let mut id = c1;
    let b = ctxs.unshare(&mut id);
    assert_eq!(b, CtxBufId(0));
    assert_eq!(id, c1);
    assert_eq!(ctxs.len(), 1);
    let mut id0 = CtxId::root();
    let b2 = ctxs.unshare(&mut id0);
    assert_eq!(b2, CtxBufId(1));
    assert_eq!(id0, CtxId(CtxBufId(1), 1));
    assert_eq!(ctxs.len(), 2);
}

#[test]
fn cfg_blocks_and_completeness() {
    let mut cfg = Cfg::new();
    let b0 = cfg.new_block(CtxId::root());
    assert_eq!(b0, BlockId::entry());
    let b1 = cfg.new_block(CtxId::root());
    assert_eq!(b1, BlockId(1));
    assert!(cfg.blocks[0].term.is_none());
    assert!(!cfg.is_complete());
    cfg.blocks[0].terminate(Terminator::Jump(b1, vec![]));
    assert!(!cfg.is_complete());
    cfg.blocks[1].terminate(Terminator::Return(vec![]));
    assert!(cfg.is_complete());
    let b2 = cfg.new_block(CtxId::root());
    cfg.blocks[2].terminate(Terminator::Assert(Operand::Copy(Place::local(VarId(0))), VarId(9), BlockId(7)));
    assert_eq!(b2, BlockId(2));
    assert!(!cfg.is_complete());
}

#[test]
fn jump_arguments() {
    let mut cfg = Cfg::new();
    let c1 = cfg.ctxs.extend(CtxId::root(), VarId(1), ety());
    let c12 = cfg.ctxs.extend(c1, VarId(2), ety());
    let c13 = cfg.ctxs.extend(c1, VarId(3), ety());
    let target = cfg.new_block(c13);
    let mv = |v: u32| Operand::Move(Place::local(VarId(v)));
    assert!(cfg.check_jump(c12, target, &vec![(VarId(3), mv(2))]));
    assert!(cfg.check_jump(c12, target, &vec![(VarId(3), mv(2)), (VarId(1), mv(1))]));
    assert!(!cfg.check_jump(c12, target, &vec![]));
    assert!(!cfg.check_jump(c12, target, &vec![(VarId(3), mv(2)), (VarId(2), mv(2))]));
    assert!(cfg.check_jump(c13, target, &vec![]));
}

#[test]
fn constants() {
    let u = Constant::unit();
    assert_eq!(u.k, ConstKind::Unit);
    assert!(matches!(*u.ety.1, TyKind::Unit));
    let t = Constant::itrue();
    assert!(matches!(*t.ety.1, TyKind::True));
    let b = Constant::bool(true);
    assert!(matches!(b.ety.0.as_deref(), Some(ExprKind::Bool(true))));
    let n = Constant::integer(IntTy::UInt(Size::S8), BigInt::from_u64(7));
    assert!(matches!(*n.ety.1, TyKind::Int(IntTy::UInt(Size::S8))));
    assert_eq!(n.k, ConstKind::Int);
    let un = Constant::uninit(Rc::new(TyKind::Bool));
    assert!(matches!(&*un.ety.1, TyKind::Uninit(t) if matches!(**t, TyKind::Bool)));
    let rv = Operand::Const(Box::new(Constant::unit())).rv();
    assert!(matches!(rv, RValue::Use(Operand::Const(_))));
    let p = Place::local(VarId(4));
    assert_eq!(p.local, VarId(4));
    assert!(p.proj.is_empty());
}

#[test]
fn terminator_successors() {
    let op = || Operand::Copy(Place::local(VarId(0)));
    let t = Terminator::If(op(), [(VarId(1), BlockId(2)), (VarId(3), BlockId(4))]);
    assert_eq!(t.successors(), vec![BlockId(2), BlockId(4)]);
    assert!(Terminator::Unreachable(op()).successors().is_empty());
}

#[test]
fn remap_renames_atoms_and_terms() {
    let r = Remapper { atom: vec![AtomId(10), AtomId(11)], term: vec![TermId(20)] };
    let node = Mm0ExprNode::Expr(TermId(0), vec![Mm0ExprNode::Const(AtomId(1)), Mm0ExprNode::Var(3)]);
    match node.remap(&r) {
        Mm0ExprNode::Expr(t, es) => {
            assert_eq!(t, TermId(20));
            assert!(matches!(es[0], Mm0ExprNode::Const(AtomId(11))));
            assert!(matches!(es[1], Mm0ExprNode::Var(3)));
        }
        _ => panic!("shape changed"),
    }
    let e = Rc::new(ExprKind::Const(AtomId(0)));
    let ty = TyKind::User(AtomId(1), vec![Rc::new(TyKind::Bool)], vec![e.clone()]);
    match ty.remap(&r) {
        TyKind::User(f, tys, es) => {
            assert_eq!(f, AtomId(11));
            assert!(matches!(*tys[0], TyKind::Bool));
            assert!(matches!(*es[0], ExprKind::Const(AtomId(10))));
        }
        _ => panic!("shape changed"),
    }
    let mm0 = ExprKind::Mm0(Mm0Expr { subst: vec![e.clone()], expr: Rc::new(Mm0ExprNode::Const(AtomId(5))) });
    match mm0.remap(&r) {
        ExprKind::Mm0(m) => {
            assert!(matches!(*m.subst[0], ExprKind::Const(AtomId(10))));
            assert!(matches!(*m.expr, Mm0ExprNode::Const(AtomId(5))));
        }
        _ => panic!("shape changed"),
    }
    let c = Constant { ety: (None, Rc::new(TyKind::Unit)), k: ConstKind::Const(AtomId(0)) };
    assert_eq!(c.remap(&r).k, ConstKind::Const(AtomId(10)));
    let st = Statement::Let(VarId(1), (Some(e), Rc::new(TyKind::Unit)), RValue::Use(Operand::Move(Place::local(VarId(2)))));
    match st.remap(&r) {
        Statement::Let(x, (Some(v), _), RValue::Use(Operand::Move(p))) => {
            assert_eq!(x, VarId(1));
            assert!(matches!(*v, ExprKind::Const(AtomId(10))));
            assert_eq!(p.local, VarId(2));
        }
        _ => panic!("shape changed"),
    }
    let mut cfg = Cfg::new();
    let b = cfg.new_block(CtxId::root());
    cfg.blocks[0].terminate(Terminator::Jump(b, vec![(VarId(1), Operand::Const(Box::new(Constant::unit())))]));
    let p = Proc {
        kind: ProcKind::Func,
        name: Spanned { span: FileSpan { file: "f.mmc".to_string(), start: 0, end: 3 }, k: AtomId(0) },
        tyargs: 0,
        args: vec![Arg { attr: ArgAttr { bits: ArgAttr::GHOST }, var: VarId(0), ty: Rc::new(TyKind::Int(IntTy::Int(Size::S8))) }],
        rets: vec![],
        body: cfg,
    };
    let q = p.remap(&r);
    assert_eq!(q.name.k, AtomId(10));
    assert_eq!(q.name.span.file, "f.mmc");
    assert_eq!(q.args[0].attr.bits, 8);
    assert_eq!(q.body.blocks.len(), 1);
    assert!(q.body.is_complete() == p.body.is_complete());
    let out_of_map = Remapper { atom: vec![], term: vec![] };
    assert!(matches!(ExprKind::Const(AtomId(4)).remap(&out_of_map), ExprKind::Const(AtomId(4))));
}

#[test]
fn variables_display_with_underscore() {
    assert_eq!(VarId(12).display(), "_12");
    assert_eq!(VarId(0).display(), "_0");
    assert_eq!(mm0_server::types::VarId(7).display(), "_7");
}
