use vstd::prelude::*;

use crate::heap_object::FunctionObj;
use crate::opcode::OpCode;
use crate::value::GcPtr;

verus! {

/// What kind of function is being compiled.
#[derive(Clone, Copy, Debug, PartialEq, Eq, Structural)]
pub enum FunctionKind {
    Function,
    Initializer,
    Method,
    Script,
}

/// A captured variable of a function: a slot of the enclosing function's
/// locals, or one of its upvalues.
#[derive(Clone, Copy, Debug, PartialEq, Eq, Structural)]
pub struct Upvalue {
    pub index: u8,
    pub is_local: bool,
}

/// A slot of a function's locals: the slot of the function itself, or a
/// named local with the depth of its scope (none while it is being
/// initialised) and whether a closure captures it.
#[derive(Debug)]
pub enum LocalVar {
    GlobalFunction,
    LocalBinding { name: Vec<char>, depth_opt: Option<u8>, is_captured: bool },
}

/// A local slot taken by its view.
pub enum LocalView {
    GlobalFunction,
    LocalBinding { name: Seq<char>, depth_opt: Option<u8>, is_captured: bool },
}

impl View for LocalVar {
    type V = LocalView;

    open spec fn view(&self) -> LocalView {
        match self {
            LocalVar::GlobalFunction => LocalView::GlobalFunction,
            LocalVar::LocalBinding { name, depth_opt, is_captured } => LocalView::LocalBinding {
                name: name@,
                depth_opt: *depth_opt,
                is_captured: *is_captured,
            },
        }
    }
}

/// The locals with the latest one initialised at `depth` (at the top
/// level, or with no local, nothing changes).
pub open spec fn latest_initialized(locals: Seq<LocalView>, depth: u8) -> Seq<LocalView> {
    if depth != 0 && locals.len() > 0 {
        locals.update(
            locals.len() - 1,
            match locals.last() {
                LocalView::LocalBinding { name, is_captured, .. } => LocalView::LocalBinding {
                    name,
                    depth_opt: Some(depth),
                    is_captured,
                },
                LocalView::GlobalFunction => LocalView::GlobalFunction,
            },
        )
    } else {
        locals
    }
}

/// The depth of a local slot's scope, if it has one yet.
pub open spec fn spec_depth(l: LocalView) -> Option<u8> {
    match l {
        LocalView::GlobalFunction => None,
        LocalView::LocalBinding { depth_opt, .. } => depth_opt,
    }
}

/// Whether a closure captures the local slot.
pub open spec fn spec_captured(l: LocalView) -> bool {
    match l {
        LocalView::GlobalFunction => false,
        LocalView::LocalBinding { is_captured, .. } => is_captured,
    }
}

/// The locals' slots, each by its view.
pub open spec fn locals_view(v: Seq<LocalVar>) -> Seq<LocalView> {
    v.map_values(|l: LocalVar| l@)
}

/// The instruction that discards a local going out of scope.
pub open spec fn discard_op(l: LocalView) -> OpCode {
    if spec_captured(l) {
        OpCode::CloseUpvalue
    } else {
        OpCode::Pop
    }
}

/// Whether a slot belongs to a scope deeper than `depth`.
pub open spec fn is_deeper(l: LocalView, depth: u8) -> bool {
    match spec_depth(l) {
        Some(d) => d > depth,
        None => false,
    }
}

/// How many slots, from the top, lie in scopes deeper than `depth`.
pub open spec fn deeper_count(locals: Seq<LocalView>, depth: u8) -> nat
    decreases locals.len(),
{
    if locals.len() > 0 && is_deeper(locals.last(), depth) {
        1 + deeper_count(locals.drop_last(), depth)
    } else {
        0
    }
}

/// The instructions that discard the slots deeper than `depth`, top first.
pub open spec fn scope_exit_ops(locals: Seq<LocalView>, depth: u8) -> Seq<OpCode>
    decreases locals.len(),
{
    if locals.len() > 0 && is_deeper(locals.last(), depth) {
        seq![discard_op(locals.last())] + scope_exit_ops(locals.drop_last(), depth)
    } else {
        Seq::empty()
    }
}

impl LocalVar {
    /// The depth of the slot's scope, if it has one yet.
    pub fn depth_opt(&self) -> (res: Option<u8>)
        ensures
            res == spec_depth(self@),
    {
        match self {
            LocalVar::GlobalFunction => None,
            LocalVar::LocalBinding { depth_opt, .. } => *depth_opt,
        }
    }

    /// Whether a closure captures the slot.
    pub fn is_captured(&self) -> (res: bool)
        ensures
            res == spec_captured(self@),
    {
        match self {
            LocalVar::GlobalFunction => false,
            LocalVar::LocalBinding { is_captured, .. } => *is_captured,
        }
    }

    /// Records that a closure captures the slot (the function's own slot
    /// is never captured).
    pub fn mark_captured(&mut self)
        ensures
            final(self)@ == match old(self)@ {
                LocalView::GlobalFunction => LocalView::GlobalFunction,
                LocalView::LocalBinding { name, depth_opt, .. } => LocalView::LocalBinding {
                    name,
                    depth_opt,
                    is_captured: true,
                },
            },
    {
        match self {
            LocalVar::GlobalFunction => {},
            LocalVar::LocalBinding { is_captured, .. } => {
                *is_captured = true;
            },
        }
    }
}

/// A function being compiled: the function object, its kind, the constants
/// already made for identifiers, its local slots, its scope depth and its
/// upvalues.
pub struct Program {
    pub function: FunctionObj,
    pub function_kind: FunctionKind,
    pub ident_byte_cache: Vec<(GcPtr, u8)>,
    pub local_vars: Vec<LocalVar>,
    pub scope_depth: u8,
    pub upvalues: Vec<Upvalue>,
}

impl Program {
    /// The program's invariant: at most 256 local slots and 256 upvalues,
    /// the upvalues are those counted by the function, and its chunk is well
    /// formed.
    pub open spec fn wf(&self) -> bool {
        &&& self.local_vars.len() <= 256
        &&& self.upvalues.len() <= 256
        &&& self.upvalues.len() == self.function.spec_upvalue_count()
        &&& self.function.spec_chunk().wf()
    }

    /// A program for `function`. Methods and initialisers keep `this` in
    /// their first slot; other functions keep themselves there.
    pub fn new(function: FunctionObj, function_kind: FunctionKind) -> (res: Program)
        requires
            function.spec_upvalue_count() == 0,
            function.spec_chunk().wf(),
        ensures
            res.wf(),
            res.function == function,
            res.function_kind == function_kind,
            res.ident_byte_cache@.len() == 0,
            res.scope_depth == 0,
            res.upvalues@.len() == 0,
            locals_view(res.local_vars@) == seq![
                if function_kind == FunctionKind::Method || function_kind
                    == FunctionKind::Initializer {
                    LocalView::LocalBinding {
                        name: seq!['t', 'h', 'i', 's'],
                        depth_opt: Some(0u8),
                        is_captured: false,
                    }
                } else {
                    LocalView::GlobalFunction
                },
            ],
    {
        let first_binding = if function_kind == FunctionKind::Method || function_kind
            == FunctionKind::Initializer {
            LocalVar::LocalBinding {
                name: vec!['t', 'h', 'i', 's'],
                depth_opt: Some(0),
                is_captured: false,
            }
        } else {
            LocalVar::GlobalFunction
        };
        let mut local_vars: Vec<LocalVar> = Vec::new();
        local_vars.push(first_binding);
        let res = Program {
            function,
            function_kind,
            ident_byte_cache: Vec::new(),
            local_vars,
            scope_depth: 0,
            upvalues: Vec::new(),
        };
        proof {
            assert(locals_view(res.local_vars@) =~= seq![res.local_vars@[0]@]);
        }
        res
    }

    /// Enters a nested scope (the depth counts modulo 256).
    pub fn begin_scope(&mut self)
        ensures
            final(self).scope_depth == (old(self).scope_depth + 1) % 256,
            final(self).function == old(self).function,
            final(self).function_kind == old(self).function_kind,
            final(self).ident_byte_cache == old(self).ident_byte_cache,
            final(self).local_vars == old(self).local_vars,
            final(self).upvalues == old(self).upvalues,
    {
        self.scope_depth = self.scope_depth.wrapping_add(1);
    }

    /// Leaves the current scope (the depth counts modulo 256): drops the
    /// locals declared in it and gives the instructions that discard them,
    /// top first (closing those that a closure captured).
    pub fn end_scope(&mut self) -> (res: Vec<OpCode>)
        requires
            old(self).wf(),
        ensures
            final(self).wf(),
            final(self).scope_depth == (old(self).scope_depth + 255) % 256,
            res@ == scope_exit_ops(locals_view(old(self).local_vars@), final(self).scope_depth),
            locals_view(final(self).local_vars@) == locals_view(old(self).local_vars@).take(
                old(self).local_vars@.len() - deeper_count(
                    locals_view(old(self).local_vars@),
                    final(self).scope_depth,
                ),
            ),
            final(self).function == old(self).function,
            final(self).function_kind == old(self).function_kind,
            final(self).ident_byte_cache == old(self).ident_byte_cache,
            final(self).upvalues == old(self).upvalues,
    {
        self.scope_depth = self.scope_depth.wrapping_sub(1);
        let ghost all = locals_view(old(self).local_vars@);
        let ghost depth = self.scope_depth;
        let mut op_codes: Vec<OpCode> = Vec::new();
        loop
            invariant
                self.scope_depth == depth,
                self.local_vars.len() <= old(self).local_vars.len(),
                locals_view(self.local_vars@) == all.take(self.local_vars.len() as int),
                all == locals_view(old(self).local_vars@),
                all.len() == old(self).local_vars.len(),
                op_codes@ + scope_exit_ops(locals_view(self.local_vars@), depth)
                    == scope_exit_ops(all, depth),
                deeper_count(locals_view(self.local_vars@), depth) + (all.len()
                    - self.local_vars.len()) == deeper_count(all, depth),
                self.function == old(self).function,
                self.function_kind == old(self).function_kind,
                self.ident_byte_cache == old(self).ident_byte_cache,
                self.upvalues == old(self).upvalues,
            ensures
                deeper_count(locals_view(self.local_vars@), depth) == 0,
            decreases self.local_vars.len(),
        {
            let n = self.local_vars.len();
            let ghost cur = locals_view(self.local_vars@);
            if n == 0 {
                proof {
                    assert(scope_exit_ops(cur, depth) =~= Seq::<OpCode>::empty());
                    assert(op_codes@ + Seq::<OpCode>::empty() =~= op_codes@);
                }
                break ;
            }
            proof {
                assert(cur.last() == self.local_vars@[n - 1]@);
            }
            let deeper = match self.local_vars[n - 1].depth_opt() {
                Some(d) => d > self.scope_depth,
                None => false,
            };
            if !deeper {
                proof {
                    assert(!is_deeper(cur.last(), depth));
                    assert(scope_exit_ops(cur, depth) =~= Seq::<OpCode>::empty());
                    assert(op_codes@ + Seq::<OpCode>::empty() =~= op_codes@);
                }
                break ;
            }
            let op = if self.local_vars[n - 1].is_captured() {
                OpCode::CloseUpvalue
            } else {
                OpCode::Pop
            };
            op_codes.push(op);
            let _ = self.local_vars.pop();
            proof {
                assert(locals_view(self.local_vars@) =~= cur.drop_last());
                assert(cur.drop_last() =~= all.take(self.local_vars.len() as int));
                assert(op == discard_op(cur.last()));
                assert(scope_exit_ops(cur, depth) == seq![op] + scope_exit_ops(cur.drop_last(), depth));
                assert(op_codes@ + scope_exit_ops(cur.drop_last(), depth) =~= op_codes@.drop_last()
                    + seq![op] + scope_exit_ops(cur.drop_last(), depth));
            }
        }
        proof {
            assert(deeper_count(locals_view(self.local_vars@), depth) == 0);
            assert(all.take(self.local_vars.len() as int) =~= all.take(
                all.len() - deeper_count(all, depth),
            ));
        }
        op_codes
    }

    /// Marks the latest local as initialised: it takes the current depth
    /// (at the top level, where locals are not kept, and when there is no
    /// slot left, nothing changes).
    pub fn mark_latest_var_initialized(&mut self)
        requires
            old(self).wf(),
        ensures
            final(self).wf(),
            locals_view(final(self).local_vars@) == latest_initialized(
                locals_view(old(self).local_vars@),
                old(self).scope_depth,
            ),
            final(self).scope_depth == old(self).scope_depth,
            final(self).function == old(self).function,
            final(self).function_kind == old(self).function_kind,
            final(self).ident_byte_cache == old(self).ident_byte_cache,
            final(self).upvalues == old(self).upvalues,
    {
        if self.scope_depth != 0 && self.local_vars.len() > 0 {
            let index = self.local_vars.len() - 1;
            let ghost before = self.local_vars@;
            let depth = self.scope_depth;
            match &mut self.local_vars[index] {
                LocalVar::LocalBinding { depth_opt, .. } => {
                    *depth_opt = Some(depth);
                },
                LocalVar::GlobalFunction => {},
            }
            proof {
                assert forall|i: int| 0 <= i < before.len() && i != index implies self.local_vars@[i]
                    == before[i] by {}
                assert(locals_view(self.local_vars@) =~= locals_view(before).update(
                    index as int,
                    match locals_view(before).last() {
                        LocalView::LocalBinding { name, is_captured, .. } => LocalView::LocalBinding {
                            name,
                            depth_opt: Some(depth),
                            is_captured,
                        },
                        LocalView::GlobalFunction => LocalView::GlobalFunction,
                    },
                ));
            }
        }
    }
}

} // verus!
