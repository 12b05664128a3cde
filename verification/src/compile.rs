//! Compiling a whole program: parse each top-level definition and generate
//! its code, between the program's entry point and its data section.
use vstd::prelude::*;

use crate::nasm::{grows, is_label_text, lemma_grows_trans};
use crate::parse::{global_tokens, is_split, lemma_program_push, opt_seq, program_tokens, Parser, Split};
use crate::statement::{extern_text, function_code, init_text, Codegen};
use crate::ast::{Abi, GlobalValue};
use crate::tokenize::{is_symbol_text, lexes, FloatBits, Token};

verus! {

/// Why a program was refused.
#[derive(Debug)]
pub enum RunError {
    Parse(crate::parse::Error),
    Codegen(crate::codegen::Error),
}

/// The output of a compiled program: the entry point and runtime routines,
/// the code of the definitions `body`, and the data section holding `data`.
pub open spec fn program_text(s: Seq<char>, body: Seq<char>, data: Seq<char>) -> bool {
    s == init_text(0, 0) + body + "\n"@ + "section .data\n"@ + data
}

/// The texts `ts` one after the other.
pub open spec fn joined(ts: Seq<Seq<char>>) -> Seq<char>
    decreases ts.len(),
{
    if ts.len() == 0 {
        Seq::empty()
    } else {
        joined(ts.drop_last()) + ts.last()
    }
}

/// The text `t` that the definition `value` named `name` adds to the
/// output: nothing for a struct or a function prototype, the `extern`
/// directive and jump of a C function, and the label, the body's code and
/// the return of a function with a body.
pub open spec fn global_text(name: Seq<char>, value: GlobalValue, t: Seq<char>) -> bool {
    match value {
        GlobalValue::Struct(_) => t == Seq::<char>::empty(),
        GlobalValue::Function(f) => match f.abi {
            Abi::C => t == extern_text(name),
            Abi::Stucker => if f.body is Some {
                exists|b: Seq<char>, k: nat| #[trigger] function_code(Seq::<char>::empty(), name, b, k, t)
            } else {
                t == Seq::<char>::empty()
            },
        },
    }
}

/// `ts` are the texts the definitions `gs` add to the output, in order.
pub open spec fn texts_of(gs: Seq<(String, GlobalValue)>, ts: Seq<Seq<char>>) -> bool {
    &&& ts.len() == gs.len()
    &&& forall|i: int| 0 <= i < gs.len() ==> global_text(gs[i].0@, gs[i].1, #[trigger] ts[i])
}

/// What a definition's code added after `w0` to give `w1` is its text.
proof fn lemma_global_text(name: Seq<char>, value: GlobalValue, w0: Seq<char>, w1: Seq<char>)
    requires
        match value {
            GlobalValue::Struct(_) => w1 == w0,
            GlobalValue::Function(f) => match f.abi {
                Abi::C => w1 == w0 + extern_text(name),
                Abi::Stucker => if f.body is Some {
                    exists|b: Seq<char>, k: nat| #[trigger] function_code(w0, name, b, k, w1)
                } else {
                    w1 == w0
                },
            },
        },
    ensures
        w0.is_prefix_of(w1),
        global_text(name, value, w1.skip(w0.len() as int)),
{
    let t = w1.skip(w0.len() as int);
    match value {
        GlobalValue::Struct(_) => {
            assert(t =~= Seq::<char>::empty());
        },
        GlobalValue::Function(f) => match f.abi {
            Abi::C => {
                assert(w1 =~= w0 + t);
                assert(t =~= extern_text(name));
            },
            Abi::Stucker => if f.body is Some {
                let (b, k) = choose|b: Seq<char>, k: nat| #[trigger] function_code(w0, name, b, k, w1);
                let u = "\n"@ + crate::nasm::label("_"@ + name) + b + crate::nasm::ret_text(k);
                assert(w1 =~= w0 + u);
                assert(t =~= u);
                assert(function_code(Seq::<char>::empty(), name, b, k, t));
            } else {
                assert(t =~= Seq::<char>::empty());
            },
        },
    }
}

/// Symbol text is valid label text.
pub proof fn lemma_symbol_is_label(x: Seq<char>)
    requires
        is_symbol_text(x),
    ensures
        is_label_text(x),
{
    assert forall|i: int| 0 <= i < x.len() implies {
        let c = #[trigger] x[i];
        crate::nasm::is_ascii_alnum(c) || c == '_' || c == '$' || c == '#' || c == '@' || c == '.' || c == '?'
    } by {
        let c = x[i];
        assert(('a' <= c && c <= 'z') || ('A' <= c && c <= 'Z') || ('0' <= c && c <= '9') || c == '_');
    }
}

/// Compiles the program the parser reads to NASM assembly, written to
/// `out`: the entry point and runtime routines, each definition in order,
/// then the data section. On success the output has that shape, the tokens
/// taken form a sequence of top-level definitions, and for a parser none of
/// whose reads had failed, the tokens taken since its start are all the
/// tokens of the input from there. On a failure `out` holds what was written
/// before it: the entry point and runtime routines and the code of each
/// definition read in full before it, and (for a definition whose code
/// failed) the code written for it so far.
#[verifier::rlimit(30)]
#[verifier::spinoff_prover]
pub fn run<F: FloatBits>(parser: &mut Parser<F>, out: &mut String) -> (r: Result<(), RunError>)
    requires
        old(parser).wf(),
    ensures
        final(parser).advanced(old(parser)),
        r is Ok ==> exists|body: Seq<char>, data: Seq<char>| #[trigger] program_text(final(out)@, body, data),
        r is Ok ==> exists|
            gs: Seq<(String, GlobalValue)>,
            ends: Seq<int>,
            ds: Seq<Split>,
            ts: Seq<Seq<char>>,
            data: Seq<char>,
        |
            #![trigger program_tokens(final(parser).took(old(parser)), gs, ends, ds), texts_of(gs, ts), program_text(final(out)@, joined(ts), data)]
            program_tokens(final(parser).took(old(parser)), gs, ends, ds) && texts_of(gs, ts) && program_text(
                final(out)@,
                joined(ts),
                data,
            ),
        r is Ok ==> final(parser).buf is None,
        r is Ok ==> exists|gs: Seq<(String, GlobalValue)>, ends: Seq<int>, ds: Seq<Split>|
            #[trigger] program_tokens(final(parser).took(old(parser)), gs, ends, ds),
        r matches Err(RunError::Parse(e)) ==> final(parser).raised(old(parser).taken@.len(), e),
        r matches Err(RunError::Parse(_)) ==> exists|
            k: int,
            gs: Seq<(String, GlobalValue)>,
            ends: Seq<int>,
            ds: Seq<Split>,
            ts: Seq<Seq<char>>,
        |
            #![trigger program_tokens(final(parser).took(old(parser)).take(k), gs, ends, ds), texts_of(gs, ts)]
            0 <= k <= final(parser).took(old(parser)).len() && program_tokens(
                final(parser).took(old(parser)).take(k),
                gs,
                ends,
                ds,
            ) && texts_of(gs, ts) && final(out)@ == init_text(0, 0) + joined(ts),
        r matches Err(RunError::Codegen(_)) ==> exists|gs: Seq<(String, GlobalValue)>, ends: Seq<int>, ds: Seq<Split>|
            #[trigger] program_tokens(final(parser).took(old(parser)), gs, ends, ds) && gs.len() > 0,
        r matches Err(RunError::Codegen(_)) ==> exists|
            gs: Seq<(String, GlobalValue)>,
            ends: Seq<int>,
            ds: Seq<Split>,
            ts: Seq<Seq<char>>,
        |
            #![trigger program_tokens(final(parser).took(old(parser)), gs, ends, ds), texts_of(gs.drop_last(), ts)]
            program_tokens(final(parser).took(old(parser)), gs, ends, ds) && gs.len() > 0 && texts_of(
                gs.drop_last(),
                ts,
            ) && (init_text(0, 0) + joined(ts)).is_prefix_of(final(out)@),
        r is Ok && old(parser).unbroken@ ==> final(parser).unbroken@ && lexes(
            final(parser).tokenizer.input@,
            final(parser).start@,
            final(parser).taken@,
            final(parser).tokenizer.input.len() as int,
        ),
{
    let ghost p0 = *parser;
    let ghost mut gs: Seq<(String, GlobalValue)> = Seq::empty();
    let ghost mut ends: Seq<int> = Seq::empty();
    let ghost mut ds: Seq<Split> = Seq::empty();
    let ghost mut ts: Seq<Seq<char>> = Seq::empty();
    proof {
        assert(parser.took(&p0) =~= Seq::<Token>::empty());
    }
    let mut codegen = Codegen::new();
    match codegen.init() {
        Ok(()) => {},
        Err(e) => {
            *out = codegen.nasm.writer;
            return Err(RunError::Codegen(e));
        },
    }
    let ghost n1 = codegen.nasm;
    proof {
        assert(n1.writer@ =~= init_text(0, 0));
        crate::nasm::lemma_grows_refl(n1);
    }
    loop
        invariant
            parser.advanced(old(parser)),
            p0 == *old(parser),
            grows(n1, codegen.nasm),
            n1.writer@ == init_text(0, 0),
            program_tokens(parser.took(&p0), gs, ends, ds),
            texts_of(gs, ts),
            codegen.nasm.writer@ == init_text(0, 0) + joined(ts),
            old(parser).unbroken@ ==> parser.unbroken@,
        ensures
            parser.buf is None,
        decreases parser.remaining(),
    {
        let ghost q0 = *parser;
        let g = match parser.next_global() {
            Ok(g) => g,
            Err(e) => {
                proof {
                    Parser::<F>::lemma_took_split(&p0, &q0, parser);
                    let k = q0.took(&p0).len() as int;
                    assert(parser.took(&p0).take(k) =~= q0.took(&p0));
                    assert(program_tokens(parser.took(&p0).take(k), gs, ends, ds) && texts_of(gs, ts));
                }
                *out = codegen.nasm.writer;
                return Err(RunError::Parse(e));
            },
        };
        match g {
            Some((name, value)) => {
                proof {
                    lemma_symbol_is_label(name@);
                    let d = choose|d: Split| #[trigger] is_split(d) && global_tokens(parser.took(&q0), name, value, d);
                    Parser::<F>::lemma_took_split(&p0, &q0, parser);
                    lemma_program_push(q0.took(&p0), parser.took(&q0), gs, ends, ds, name, value, d);
                    let gs2 = gs.push((name, value));
                    let ends2 = ends.push((q0.took(&p0) + parser.took(&q0)).len() as int);
                    let ds2 = ds.push(d);
                    gs = gs2;
                    ends = ends2;
                    ds = ds2;
                }
                let ghost m = codegen.nasm;
                let ghost ts_before = ts;
                let ghost gs_before = gs.drop_last();
                let ghost gname = name@;
                let ghost gvalue = value;
                let r = codegen.codegen(name, value);
                proof {
                    lemma_grows_trans(n1, m, codegen.nasm);
                }
                match r {
                    Ok(()) => {
                        proof {
                            let w0 = m.writer@;
                            let w1 = codegen.nasm.writer@;
                            lemma_global_text(gname, gvalue, w0, w1);
                            let t = w1.skip(w0.len() as int);
                            assert(w1 =~= w0 + t);
                            let ts2 = ts.push(t);
                            assert(ts2.drop_last() =~= ts);
                            assert(joined(ts2) == joined(ts) + t);
                            assert(w1 =~= init_text(0, 0) + joined(ts2));
                            assert forall|i: int| 0 <= i < gs.len() implies global_text(gs[i].0@, gs[i].1, #[trigger] ts2[i]) by {
                                if i < gs.len() - 1 {
                                    assert(ts2[i] == ts[i]);
                                }
                            }
                            ts = ts2;
                        }
                    },
                    Err(e) => {
                        proof {
                            assert(program_tokens(parser.took(old(parser)), gs, ends, ds) && gs.len() > 0);
                            assert(gs.drop_last() =~= gs_before);
                            assert(texts_of(gs.drop_last(), ts_before));
                            assert((init_text(0, 0) + joined(ts_before)).is_prefix_of(codegen.nasm.writer@));
                        }
                        *out = codegen.nasm.writer;
                        return Err(RunError::Codegen(e));
                    },
                }
            },
            None => break,
        }
    }
    let ghost m = codegen.nasm;
    let _ = codegen.deinit();
    proof {
        crate::nasm::lemma_written(n1, m);
    }
    proof {
        assert(program_tokens(parser.took(old(parser)), gs, ends, ds));
        assert(parser.taken@ + opt_seq(parser.buf) =~= parser.taken@);
    }
    *out = codegen.nasm.writer;
    proof {
        assert(program_text(out@, crate::nasm::written(n1, m), m.rodata@));
        assert(crate::nasm::written(n1, m) =~= joined(ts));
        assert(texts_of(gs, ts));
        assert(program_text(out@, joined(ts), m.rodata@));
    }
    Ok(())
}

} // verus!
