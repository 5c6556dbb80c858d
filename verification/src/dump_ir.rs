//! A readable text rendering of the typed SSA IR: one `fn` header per
//! function, then each block's label, its instructions, and its terminator.

use vstd::prelude::*;
use vstd::string::StringExecFns;
use crate::block::Terminator;
use crate::function::Function;
use crate::inst::{bin_mnemonic, un_mnemonic, InstKind, Instruction};
use crate::module::Module;
use crate::text::{append_i64, int_text};
use crate::types::{type_spelling, Type};
use crate::value::{block_text, value_text, BlockId, ValueId};

verus! {

/// `parts`, separated by `", "`.
pub open spec fn joined(parts: Seq<Seq<char>>) -> Seq<char>
    decreases parts.len(),
{
    if parts.len() == 0 {
        Seq::empty()
    } else if parts.len() == 1 {
        parts[0]
    } else {
        joined(parts.drop_last()) + ", "@ + parts.last()
    }
}

/// What joining one more part adds.
pub open spec fn sep(i: int) -> Seq<char> {
    if i > 0 { ", "@ } else { Seq::empty() }
}

proof fn lemma_joined_push(parts: Seq<Seq<char>>, i: int)
    requires
        0 <= i < parts.len(),
    ensures
        joined(parts.take(i + 1)) == joined(parts.take(i)) + sep(i) + parts[i],
{
    if i == 0 {
        assert(parts.take(1).len() == 1);
        assert(joined(parts.take(0)) + sep(0) + parts[0] =~= parts[0]);
    } else {
        assert(parts.take(i + 1).drop_last() =~= parts.take(i));
    }
}

/// A parameter as a `fn` header lists it: `name: type`.
pub open spec fn param_text(p: (String, Type)) -> Seq<char> {
    p.0@ + ": "@ + type_spelling(p.1)
}

/// One phi entry: `[block -> value]`.
pub open spec fn incoming_text(e: (BlockId, ValueId)) -> Seq<char> {
    "["@ + block_text(e.0) + " -> "@ + value_text(e.1) + "]"@
}

pub open spec fn bool_text(b: bool) -> Seq<char> {
    if b { "true"@ } else { "false"@ }
}

/// The right-hand side of an instruction line.
pub open spec fn kind_text(k: InstKind) -> Seq<char> {
    match k {
        InstKind::ConstI64(n) => "const "@ + int_text(n as int),
        InstKind::ConstBool(b) => "const "@ + bool_text(b),
        InstKind::Bin(op, a, b) => bin_mnemonic(op) + " "@ + value_text(a) + ", "@ + value_text(b),
        InstKind::Un(op, a) => un_mnemonic(op) + " "@ + value_text(a),
        InstKind::Call { func, args } => "call "@ + func@ + "("@ + joined(args@.map_values(|a: ValueId| value_text(a))) + ")"@,
        InstKind::Phi(incoming) => "phi "@ + joined(incoming@.map_values(|e: (BlockId, ValueId)| incoming_text(e))),
    }
}

/// A terminator as a block's last line writes it.
pub open spec fn term_text(t: Terminator) -> Seq<char> {
    match t {
        Terminator::Jump(b) => "jmp "@ + block_text(b),
        Terminator::Branch { cond, then_block, else_block } =>
            "br "@ + value_text(cond) + ", "@ + block_text(then_block) + ", "@ + block_text(else_block),
        Terminator::Return(Some(v)) => "ret "@ + value_text(v),
        Terminator::Return(None) => "ret"@,
    }
}

pub open spec fn inst_line(i: Instruction) -> Seq<char> {
    "    "@ + value_text(i.id) + " = "@ + kind_text(i.kind) + "\n"@
}

/// The lines of the first `k` instructions.
pub open spec fn insts_text(is: Seq<Instruction>, k: nat) -> Seq<char>
    decreases k,
{
    if k == 0 || k > is.len() {
        Seq::empty()
    } else {
        insts_text(is, (k - 1) as nat) + inst_line(is[k - 1])
    }
}

pub open spec fn term_line(t: Option<Terminator>) -> Seq<char> {
    match t {
        Some(t) => "    "@ + term_text(t) + "\n"@,
        None => Seq::empty(),
    }
}

/// A block: its label (marked when it is the entry), its instructions, and
/// its terminator if it has one.
pub open spec fn block_lines(f: Function, b: crate::block::BasicBlock) -> Seq<char> {
    "  "@ + block_text(b.id) + (if b.id == f.entry { " (entry)"@ } else { Seq::empty() }) + ":\n"@
        + insts_text(b.instructions@, b.instructions@.len()) + term_line(b.terminator)
}

/// The first `k` blocks of `f`.
pub open spec fn blocks_text(f: Function, k: nat) -> Seq<char>
    decreases k,
{
    if k == 0 || k > f.blocks@.len() {
        Seq::empty()
    } else {
        blocks_text(f, (k - 1) as nat) + block_lines(f, f.blocks@[k - 1])
    }
}

pub open spec fn ret_text(t: Option<Type>) -> Seq<char> {
    match t {
        Some(t) => " -> "@ + type_spelling(t),
        None => Seq::empty(),
    }
}

/// A whole function: header, blocks, closing brace.
pub open spec fn function_text(f: Function) -> Seq<char> {
    "fn "@ + f.name@ + "("@ + joined(f.params@.map_values(|p: (String, Type)| param_text(p))) + ")"@ + ret_text(f.ret_ty)
        + " {\n"@ + blocks_text(f, f.blocks@.len()) + "}\n"@
}

/// The first `k` functions, separated by blank lines.
pub open spec fn functions_text(fs: Seq<Function>, k: nat) -> Seq<char>
    decreases k,
{
    if k == 0 || k > fs.len() {
        Seq::empty()
    } else {
        functions_text(fs, (k - 1) as nat) + (if k > 1 { "\n"@ } else { Seq::empty() }) + function_text(fs[k - 1])
    }
}

/// Renders every function of `module`, a blank line between each two.
pub fn render(module: &Module) -> (s: String)
    ensures
        s@ == functions_text(module.functions@, module.functions@.len()),
{
    let mut out = String::new();
    let mut i: usize = 0;
    while i < module.functions.len()
        invariant
            i <= module.functions@.len(),
            out@ == functions_text(module.functions@, i as nat),
        decreases module.functions.len() - i,
    {
        if i > 0 {
            out.append("\n");
        }
        render_function(&mut out, &module.functions[i]);
        i += 1;
    }
    out
}

fn render_function(out: &mut String, func: &Function)
    ensures
        final(out)@ == old(out)@ + function_text(*func),
{
    let ghost start = out@;
    out.append("fn ");
    out.append(func.name.as_str());
    out.append("(");
    let ghost parts = func.params@.map_values(|p: (String, Type)| param_text(p));
    let ghost head = out@;
    let mut i: usize = 0;
    assert(parts.take(0) =~= Seq::<Seq<char>>::empty());
    assert(head + joined(parts.take(0)) =~= head);
    while i < func.params.len()
        invariant
            i <= func.params@.len(),
            parts == func.params@.map_values(|p: (String, Type)| param_text(p)),
            out@ == head + joined(parts.take(i as int)),
        decreases func.params.len() - i,
    {
        proof { lemma_joined_push(parts, i as int); }
        if i > 0 {
            out.append(", ");
        }
        out.append(func.params[i].0.as_str());
        out.append(": ");
        out.append(func.params[i].1.name());
        i += 1;
    }
    assert(parts.take(func.params@.len() as int) =~= parts);
    out.append(")");
    match func.ret_ty {
        Some(t) => {
            out.append(" -> ");
            out.append(t.name());
        },
        None => {},
    }
    out.append(" {\n");
    let ghost body = out@;
    let mut k: usize = 0;
    while k < func.blocks.len()
        invariant
            k <= func.blocks@.len(),
            out@ == body + blocks_text(*func, k as nat),
        decreases func.blocks.len() - k,
    {
        render_block(out, func, &func.blocks[k]);
        k += 1;
    }
    out.append("}\n");
}

fn render_block(out: &mut String, func: &Function, block: &crate::block::BasicBlock)
    ensures
        final(out)@ == old(out)@ + block_lines(*func, *block),
{
    let ghost start = out@;
    out.append("  ");
    let label = block.id.text();
    out.append(label.as_str());
    if block.id == func.entry {
        out.append(" (entry)");
    }
    out.append(":\n");
    let mut j: usize = 0;
    let ghost lines = out@;
    while j < block.instructions.len()
        invariant
            j <= block.instructions@.len(),
            out@ == lines + insts_text(block.instructions@, j as nat),
        decreases block.instructions.len() - j,
    {
        let inst = &block.instructions[j];
        out.append("    ");
        let id = inst.id.text();
        out.append(id.as_str());
        out.append(" = ");
        let kind = render_kind(&inst.kind);
        out.append(kind.as_str());
        out.append("\n");
        j += 1;
    }
    match &block.terminator {
        Some(term) => {
            out.append("    ");
            let t = render_terminator(term);
            out.append(t.as_str());
            out.append("\n");
        },
        None => {},
    }
}

fn render_kind(kind: &InstKind) -> (s: String)
    ensures
        s@ == kind_text(*kind),
{
    let mut s = String::new();
    match kind {
        InstKind::ConstI64(n) => {
            s.append("const ");
            append_i64(&mut s, *n);
        },
        InstKind::ConstBool(b) => {
            s.append("const ");
            s.append(if *b { "true" } else { "false" });
        },
        InstKind::Bin(op, a, b) => {
            s.append(op.mnemonic());
            s.append(" ");
            s.append(a.text().as_str());
            s.append(", ");
            s.append(b.text().as_str());
        },
        InstKind::Un(op, a) => {
            s.append(op.mnemonic());
            s.append(" ");
            s.append(a.text().as_str());
        },
        InstKind::Call { func, args } => {
            s.append("call ");
            s.append(func.as_str());
            s.append("(");
            let ghost parts = args@.map_values(|a: ValueId| value_text(a));
            let ghost head = s@;
            let mut i: usize = 0;
            assert(head + joined(parts.take(0)) =~= head);
            while i < args.len()
                invariant
                    i <= args@.len(),
                    parts == args@.map_values(|a: ValueId| value_text(a)),
                    s@ == head + joined(parts.take(i as int)),
                decreases args.len() - i,
            {
                proof { lemma_joined_push(parts, i as int); }
                if i > 0 {
                    s.append(", ");
                }
                s.append(args[i].text().as_str());
                i += 1;
            }
            assert(parts.take(args@.len() as int) =~= parts);
            s.append(")");
        },
        InstKind::Phi(incoming) => {
            s.append("phi ");
            let ghost parts = incoming@.map_values(|e: (BlockId, ValueId)| incoming_text(e));
            let ghost head = s@;
            let mut i: usize = 0;
            assert(head + joined(parts.take(0)) =~= head);
            while i < incoming.len()
                invariant
                    i <= incoming@.len(),
                    parts == incoming@.map_values(|e: (BlockId, ValueId)| incoming_text(e)),
                    s@ == head + joined(parts.take(i as int)),
                decreases incoming.len() - i,
            {
                proof { lemma_joined_push(parts, i as int); }
                if i > 0 {
                    s.append(", ");
                }
                s.append("[");
                s.append(incoming[i].0.text().as_str());
                s.append(" -> ");
                s.append(incoming[i].1.text().as_str());
                s.append("]");
                i += 1;
            }
            assert(parts.take(incoming@.len() as int) =~= parts);
        },
    }
    s
}

fn render_terminator(term: &Terminator) -> (s: String)
    ensures
        s@ == term_text(*term),
{
    let mut s = String::new();
    match term {
        Terminator::Jump(b) => {
            s.append("jmp ");
            s.append(b.text().as_str());
        },
        Terminator::Branch { cond, then_block, else_block } => {
            s.append("br ");
            s.append(cond.text().as_str());
            s.append(", ");
            s.append(then_block.text().as_str());
            s.append(", ");
            s.append(else_block.text().as_str());
        },
        Terminator::Return(Some(v)) => {
            s.append("ret ");
            s.append(v.text().as_str());
        },
        Terminator::Return(None) => {
            s.append("ret");
        },
    }
    s
}

} // verus!
