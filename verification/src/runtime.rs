use vstd::prelude::*;

use crate::error::BfError;
use crate::io::Reader;
use crate::io::Writer;
use vstd::string::StringSliceAdditionalSpecFns;

verus! {

/// Length of the tape: the fixed number of cells available to a run.
pub const TAPE_LEN: usize = 30000;

/// One decoded unit of a program.
///
/// `Enter` opens a loop and carries the address of its matching `Exit`;
/// `Exit` closes it and carries the address of its matching `Enter`. Both
/// targets are resolved at load time, never recomputed during a run.
#[derive(Clone, Copy, Debug, PartialEq, Eq, Structural)]
pub enum Inst {
    Right,
    Left,
    Inc,
    Dec,
    Out,
    In,
    Enter(usize),
    Exit(usize),
}

/// Whether `b` is one of the eight bytes that carry meaning in source
/// text; every other byte is commentary. The eight, by their code
/// points: `>` 62, `<` 60, `+` 43, `-` 45, `.` 46, `,` 44, `[` 91,
/// `]` 93.
pub open spec fn is_meaningful(b: u8) -> bool {
    b == 62 || b == 60 || b == 43 || b == 45 || b == 46 || b == 44 || b == 91 || b == 93
}

/// The instruction encoded by one of the six non-bracket meaningful bytes.
pub open spec fn simple_inst(b: u8) -> Inst {
    if b == 62 {
        Inst::Right
    } else if b == 60 {
        Inst::Left
    } else if b == 43 {
        Inst::Inc
    } else if b == 45 {
        Inst::Dec
    } else if b == 46 {
        Inst::Out
    } else {
        Inst::In
    }
}

/// What one left-to-right scan of `s` yields, starting from the already
/// emitted instructions `code` and the pending open-bracket addresses
/// `stack`: either the completed program or the first structural fault.
pub open spec fn parse_rec(s: Seq<u8>, code: Seq<Inst>, stack: Seq<usize>) -> Result<
    Seq<Inst>,
    BfError,
>
    decreases s.len(),
{
    if s.len() == 0 {
        if stack.len() == 0 {
            Ok(code)
        } else {
            Err(BfError::UnmatchedOpen)
        }
    } else {
        let b: u8 = s[0];
        let rest = s.skip(1);
        if b == 91 {
            parse_rec(rest, code.push(Inst::Enter(0)), stack.push(code.len() as usize))
        } else if b == 93 {
            if stack.len() == 0 {
                Err(BfError::UnmatchedClose)
            } else {
                let open: usize = stack.last();
                parse_rec(
                    rest,
                    code.update(open as int, Inst::Enter(code.len() as usize)).push(
                        Inst::Exit(open),
                    ),
                    stack.drop_last(),
                )
            }
        } else if is_meaningful(b) {
            parse_rec(rest, code.push(simple_inst(b)), stack)
        } else {
            parse_rec(rest, code, stack)
        }
    }
}

/// The program that loading the source bytes `s` yields, or the fault that
/// rejects them. `parse` returns exactly this value.
pub open spec fn parse_spec(s: Seq<u8>) -> Result<Seq<Inst>, BfError> {
    parse_rec(s, Seq::empty(), Seq::empty())
}

/// Every jump instruction's target lies inside the program and points
/// back: the target of each `Enter` is its `Exit` — further on, so a loop
/// body sits between the two — and the target of each `Exit` is its
/// `Enter`, behind it.
pub open spec fn targets_mutual(code: Seq<Inst>) -> bool {
    forall|i: int|
        0 <= i < code.len() ==> match #[trigger] code[i] {
            Inst::Enter(t) => i < t < code.len() && code[t as int] == Inst::Exit(i as usize),
            Inst::Exit(t) => t < i && code[t as int] == Inst::Enter(i as usize),
            _ => true,
        }
}

/// The invariant that one scan step preserves: pending opens on `stack`
/// are strictly increasing addresses of `Enter` instructions, every
/// resolved `Enter` already points at its `Exit` and vice versa, and no
/// `Exit`'s partner is still pending.
pub open spec fn parse_inv(code: Seq<Inst>, stack: Seq<usize>) -> bool {
    &&& (forall|j: int|
        0 <= j < stack.len() ==> #[trigger] stack[j] < code.len() && code[stack[j] as int] is Enter)
    &&& (forall|j1: int, j2: int| 0 <= j1 < j2 < stack.len() ==> stack[j1] < stack[j2])
    &&& (forall|i: int|
        0 <= i < code.len() ==> match #[trigger] code[i] {
            Inst::Enter(t) => stack.contains(i as usize) || (t < code.len() && code[t as int]
                == Inst::Exit(i as usize)),
            Inst::Exit(t) => t < i && code[t as int] == Inst::Enter(i as usize)
                && !stack.contains(t),
            _ => true,
        })
}

proof fn lemma_parse_rec_mutual(s: Seq<u8>, code: Seq<Inst>, stack: Seq<usize>)
    requires
        parse_inv(code, stack),
        code.len() + s.len() <= usize::MAX,
        parse_rec(s, code, stack) is Ok,
    ensures
        targets_mutual(parse_rec(s, code, stack)->Ok_0),
    decreases s.len(),
{
    if s.len() == 0 {
        assert(targets_mutual(code));
    } else {
        let b: u8 = s[0];
        let rest = s.skip(1);
        if b == 91 {
            let l: usize = code.len() as usize;
            let code2 = code.push(Inst::Enter(0));
            let stack2 = stack.push(l);
            assert(stack2[stack.len() as int] == l);
            assert(stack2.contains(l));
            assert forall|i: int| 0 <= i < code2.len() implies match #[trigger] code2[i] {
                Inst::Enter(t) => stack2.contains(i as usize) || (t < code2.len()
                    && code2[t as int] == Inst::Exit(i as usize)),
                Inst::Exit(t) => t < i && code2[t as int] == Inst::Enter(i as usize)
                    && !stack2.contains(t),
                _ => true,
            } by {
                if i < code.len() {
                    match code[i] {
                        Inst::Enter(t) => {
                            if stack.contains(i as usize) {
                                let j: int = choose|j: int|
                                    0 <= j < stack.len() && stack[j] == i as usize;
                                assert(stack2[j] == i as usize);
                            }
                        },
                        Inst::Exit(t) => {
                            assert(!stack2.contains(t)) by {
                                if stack2.contains(t) {
                                    let j: int = choose|j: int|
                                        0 <= j < stack2.len() && stack2[j] == t;
                                    assert(j < stack.len());
                                    assert(stack.contains(t));
                                }
                            }
                        },
                        _ => {},
                    }
                }
            }
            assert(parse_inv(code2, stack2));
            lemma_parse_rec_mutual(rest, code2, stack2);
        } else if b == 93 {
            assert(stack.len() > 0);
            let open: usize = stack.last();
            let l: usize = code.len() as usize;
            let code2 = code.update(open as int, Inst::Enter(l)).push(Inst::Exit(open));
            let stack2 = stack.drop_last();
            assert(stack.contains(open));
            assert(!stack2.contains(open)) by {
                if stack2.contains(open) {
                    let j: int = choose|j: int| 0 <= j < stack2.len() && stack2[j] == open;
                    assert(stack[j] < stack[stack.len() - 1]);
                }
            }
            assert forall|x: usize| stack2.contains(x) implies stack.contains(x) by {
                let j: int = choose|j: int| 0 <= j < stack2.len() && stack2[j] == x;
                assert(stack[j] == x);
            }
            assert forall|i: int| 0 <= i < code2.len() implies match #[trigger] code2[i] {
                Inst::Enter(t) => stack2.contains(i as usize) || (t < code2.len()
                    && code2[t as int] == Inst::Exit(i as usize)),
                Inst::Exit(t) => t < i && code2[t as int] == Inst::Enter(i as usize)
                    && !stack2.contains(t),
                _ => true,
            } by {
                if i == open as int {
                    assert(code2[i] == Inst::Enter(l));
                    assert(code2[l as int] == Inst::Exit(open));
                } else if i == code.len() as int {
                    assert(code2[i] == Inst::Exit(open));
                    assert(code2[open as int] == Inst::Enter(l));
                } else {
                    assert(code2[i] == code[i]);
                    match code[i] {
                        Inst::Enter(t) => {
                            if stack.contains(i as usize) {
                                let j: int = choose|j: int|
                                    0 <= j < stack.len() && stack[j] == i as usize;
                                assert(j < stack.len() - 1);
                                assert(stack2[j] == i as usize);
                                assert(stack2.contains(i as usize));
                            } else {
                                assert(code[t as int] == Inst::Exit(i as usize));
                                assert(code[open as int] is Enter);
                                assert(t as int != open as int);
                                assert(code2[t as int] == Inst::Exit(i as usize));
                            }
                        },
                        Inst::Exit(t) => {
                            assert(code[t as int] == Inst::Enter(i as usize));
                            assert(!stack.contains(t));
                            assert(t != open);
                            assert(code2[t as int] == Inst::Enter(i as usize));
                        },
                        _ => {},
                    }
                }
            }
            assert(parse_inv(code2, stack2));
            lemma_parse_rec_mutual(rest, code2, stack2);
        } else if is_meaningful(b) {
            let code2 = code.push(simple_inst(b));
            assert forall|i: int| 0 <= i < code2.len() implies match #[trigger] code2[i] {
                Inst::Enter(t) => stack.contains(i as usize) || (t < code2.len() && code2[t as int]
                    == Inst::Exit(i as usize)),
                Inst::Exit(t) => t < i && code2[t as int] == Inst::Enter(i as usize)
                    && !stack.contains(t),
                _ => true,
            } by {
                if i == code.len() as int {
                    assert(!(code2[i] is Enter) && !(code2[i] is Exit));
                }
            }
            assert(parse_inv(code2, stack));
            lemma_parse_rec_mutual(rest, code2, stack);
        } else {
            lemma_parse_rec_mutual(rest, code, stack);
        }
    }
}

/// Whether, starting from `d` already open brackets, the brackets of `s`
/// nest properly and close exactly.
pub open spec fn depth_ok(s: Seq<u8>, d: int) -> bool
    decreases s.len(),
{
    if s.len() == 0 {
        d == 0
    } else if s[0] == 91 {
        depth_ok(s.skip(1), d + 1)
    } else if s[0] == 93 {
        d > 0 && depth_ok(s.skip(1), d - 1)
    } else {
        depth_ok(s.skip(1), d)
    }
}

/// Whether the brackets of `s` are properly nested: equal counts of `[`
/// and `]`, with no prefix closing more than it has opened.
pub open spec fn balanced(s: Seq<u8>) -> bool {
    depth_ok(s, 0)
}

proof fn lemma_parse_rec_ok_depth(s: Seq<u8>, code: Seq<Inst>, stack: Seq<usize>)
    ensures
        parse_rec(s, code, stack) is Ok <==> depth_ok(s, stack.len() as int),
    decreases s.len(),
{
    if s.len() == 0 {
    } else {
        let b: u8 = s[0];
        let rest = s.skip(1);
        if b == 91 {
            lemma_parse_rec_ok_depth(rest, code.push(Inst::Enter(0)), stack.push(
                code.len() as usize,
            ));
        } else if b == 93 {
            if stack.len() > 0 {
                lemma_parse_rec_ok_depth(
                    rest,
                    code.update(stack.last() as int, Inst::Enter(code.len() as usize)).push(
                        Inst::Exit(stack.last()),
                    ),
                    stack.drop_last(),
                );
            }
        } else if is_meaningful(b) {
            lemma_parse_rec_ok_depth(rest, code.push(simple_inst(b)), stack);
        } else {
            lemma_parse_rec_ok_depth(rest, code, stack);
        }
    }
}

/// Law: loading succeeds exactly on source texts whose brackets are
/// properly nested, and every loaded program's jump targets are mutual —
/// the target of each opener is its closer's address and vice versa.
pub proof fn lemma_balanced_parse_ok(s: Seq<u8>)
    requires
        s.len() <= usize::MAX,
    ensures
        parse_spec(s) is Ok <==> balanced(s),
        parse_spec(s) is Ok ==> targets_mutual(parse_spec(s)->Ok_0),
{
    lemma_parse_rec_ok_depth(s, Seq::empty(), Seq::empty());
    if parse_spec(s) is Ok {
        lemma_parse_rec_mutual(s, Seq::empty(), Seq::empty());
    }
}

/// `s` with every non-meaningful byte removed.
pub open spec fn strip_comments(s: Seq<u8>) -> Seq<u8>
    decreases s.len(),
{
    if s.len() == 0 {
        Seq::empty()
    } else if is_meaningful(s[0]) {
        seq![s[0]] + strip_comments(s.skip(1))
    } else {
        strip_comments(s.skip(1))
    }
}

proof fn lemma_parse_rec_strip(s: Seq<u8>, code: Seq<Inst>, stack: Seq<usize>)
    ensures
        parse_rec(strip_comments(s), code, stack) == parse_rec(s, code, stack),
    decreases s.len(),
{
    if s.len() == 0 {
    } else {
        let b: u8 = s[0];
        let rest = s.skip(1);
        if is_meaningful(b) {
            let t = seq![b] + strip_comments(rest);
            assert(t[0] == b);
            assert(t.skip(1) =~= strip_comments(rest));
            if b == 91 {
                lemma_parse_rec_strip(rest, code.push(Inst::Enter(0)), stack.push(
                    code.len() as usize,
                ));
            } else if b == 93 {
                if stack.len() > 0 {
                    lemma_parse_rec_strip(
                        rest,
                        code.update(stack.last() as int, Inst::Enter(code.len() as usize)).push(
                            Inst::Exit(stack.last()),
                        ),
                        stack.drop_last(),
                    );
                }
            } else {
                lemma_parse_rec_strip(rest, code.push(simple_inst(b)), stack);
            }
        } else {
            lemma_parse_rec_strip(rest, code, stack);
        }
    }
}

/// Law: commentary contributes no instructions — loading a text yields
/// the same outcome as loading the text with every byte other than the
/// eight meaningful ones removed.
pub proof fn lemma_comments_ignored(s: Seq<u8>)
    ensures
        parse_spec(s) == parse_spec(strip_comments(s)),
{
    lemma_parse_rec_strip(s, Seq::empty(), Seq::empty());
}

/// Law: loading is a pure function of the source text. `parse`'s contract
/// pins its result to `parse_spec` of the input bytes alone, so loading
/// the same text twice yields structurally identical programs: the same
/// instruction sequence with the same jump targets.
pub proof fn lemma_parse_deterministic(s1: Seq<u8>, s2: Seq<u8>)
    requires
        s1 == s2,
    ensures
        parse_spec(s1) == parse_spec(s2),
{
}

/// Converts source text into an ordered instruction sequence with
/// precomputed jump targets, scanning once from left to right.
///
/// Bracket structure is validated entirely here, before any execution:
/// a `]` with no pending `[` is rejected as `UnmatchedClose`, an `[` still
/// pending at the end of the text as `UnmatchedOpen`. On success every
/// loop's two jump targets are mutual.
pub fn parse(s: &str) -> (r: Result<Vec<Inst>, BfError>)
    ensures
        match r {
            Ok(code) => parse_spec(s.spec_bytes()) == Ok::<Seq<Inst>, BfError>(code@)
                && targets_mutual(code@),
            Err(e) => parse_spec(s.spec_bytes()) == Err::<Seq<Inst>, BfError>(e),
        },
{
    let bytes: &[u8] = s.as_bytes();
    let n: usize = bytes.len();
    let mut code: Vec<Inst> = Vec::new();
    let mut stack: Vec<usize> = Vec::new();
    let mut i: usize = 0;
    proof {
        assert(bytes@.skip(0) =~= bytes@);
    }
    while i < n
        invariant
            i <= n,
            n == bytes@.len(),
            bytes@ == s.spec_bytes(),
            code@.len() <= i,
            forall|j: int| 0 <= j < stack@.len() ==> #[trigger] stack@[j] < code@.len(),
            parse_rec(bytes@.skip(i as int), code@, stack@) == parse_spec(s.spec_bytes()),
        decreases n - i,
    {
        let b: u8 = bytes[i];
        proof {
            assert(bytes@.skip(i as int)[0] == b);
            assert(bytes@.skip(i as int).skip(1) =~= bytes@.skip(i as int + 1));
        }
        if b == 91 {
            stack.push(code.len());
            code.push(Inst::Enter(0));
        } else if b == 93 {
            match stack.pop() {
                None => {
                    return Err(BfError::UnmatchedClose);
                },
                Some(open) => {
                    let exit_addr: usize = code.len();
                    code[open] = Inst::Enter(exit_addr);
                    code.push(Inst::Exit(open));
                },
            }
        } else if b == 62 {
            code.push(Inst::Right);
        } else if b == 60 {
            code.push(Inst::Left);
        } else if b == 43 {
            code.push(Inst::Inc);
        } else if b == 45 {
            code.push(Inst::Dec);
        } else if b == 46 {
            code.push(Inst::Out);
        } else if b == 44 {
            code.push(Inst::In);
        }
        i = i + 1;
    }
    proof {
        assert(bytes@.skip(n as int) =~= Seq::<u8>::empty());
    }
    if stack.len() == 0 {
        proof {
            lemma_parse_rec_mutual(bytes@, Seq::empty(), Seq::empty());
        }
        Ok(code)
    } else {
        Err(BfError::UnmatchedOpen)
    }
}

/// The cell value one increment step yields: one more, wrapping 255 to 0.
pub open spec fn wrap_inc(c: u8) -> u8 {
    if c == 255 {
        0
    } else {
        (c + 1) as u8
    }
}

/// The cell value one decrement step yields: one less, wrapping 0 to 255.
pub open spec fn wrap_dec(c: u8) -> u8 {
    if c == 0 {
        255
    } else {
        (c - 1) as u8
    }
}

/// One interpretation run: a loaded program, a zero-filled tape, the cell
/// pointer, the program counter, and the two I/O ports the run drives.
///
/// All of it is created fresh by `new` and discarded when the run ends;
/// nothing persists across runs.
pub struct Runtime<R: Reader, W: Writer> {
    pub mem: Vec<u8>,
    pub code: Vec<Inst>,
    pub ptr: usize,
    pub pc: usize,
    pub reader: R,
    pub writer: W,
}

impl<R: Reader, W: Writer> Runtime<R, W> {
    /// The run's invariant: the tape has its fixed length, the pointer is
    /// on the tape, the program counter is at most one past the last
    /// instruction, and every jump target points at its partner.
    pub open spec fn wf(&self) -> bool {
        &&& self.mem@.len() == TAPE_LEN
        &&& self.ptr < TAPE_LEN
        &&& self.pc <= self.code@.len()
        &&& targets_mutual(self.code@)
    }

    /// Loads `s` and pairs the program with a fresh zero-filled tape, the
    /// pointer and program counter at 0, and the two given ports.
    ///
    /// Fails exactly when loading fails, with the loader's error.
    pub fn new(s: &str, reader: R, writer: W) -> (r: Result<Runtime<R, W>, BfError>)
        ensures
            match r {
                Ok(rt) => {
                    &&& parse_spec(s.spec_bytes()) == Ok::<Seq<Inst>, BfError>(rt.code@)
                    &&& rt.wf()
                    &&& rt.ptr == 0
                    &&& rt.pc == 0
                    &&& rt.mem@.len() == TAPE_LEN
                    &&& forall|i: int| 0 <= i < TAPE_LEN ==> rt.mem@[i] == 0
                    &&& rt.reader == reader
                    &&& rt.writer == writer
                },
                Err(e) => parse_spec(s.spec_bytes()) == Err::<Seq<Inst>, BfError>(e),
            },
    {
        match parse(s) {
            Ok(code) => Ok(
                Runtime {
                    mem: vec![0u8; TAPE_LEN],
                    code,
                    ptr: 0,
                    pc: 0,
                    reader,
                    writer,
                },
            ),
            Err(e) => Err(e),
        }
    }

    /// Moves the pointer by `n` cells (rightward for positive `n`). If the
    /// result would leave the tape, fails with `PointerOutOfBounds` and
    /// leaves the pointer where it was; nothing else ever changes.
    fn move_ptr(&mut self, n: isize) -> (r: Result<(), BfError>)
        requires
            old(self).wf(),
            n > isize::MIN,
        ensures
            final(self).code == old(self).code,
            final(self).mem == old(self).mem,
            final(self).pc == old(self).pc,
            final(self).reader == old(self).reader,
            final(self).writer == old(self).writer,
            final(self).wf(),
            ({
                let target: int = old(self).ptr + n;
                if 0 <= target < old(self).mem@.len() {
                    r is Ok && final(self).ptr == target
                } else {
                    r == Err::<(), BfError>(BfError::PointerOutOfBounds) && final(self).ptr == old(
                        self,
                    ).ptr
                }
            }),
    {
        if n >= 0 {
            let k: usize = n as usize;
            if k < self.mem.len() - self.ptr {
                self.ptr = self.ptr + k;
                Ok(())
            } else {
                Err(BfError::PointerOutOfBounds)
            }
        } else {
            let k: usize = (-n) as usize;
            if k <= self.ptr {
                self.ptr = self.ptr - k;
                Ok(())
            } else {
                Err(BfError::PointerOutOfBounds)
            }
        }
    }

    /// The machine's small-step semantics: what one fetch-execute step at
    /// `pre` may yield, the outcome `r` and the state `post` together.
    /// `step` performs exactly one such transition.
    pub open spec fn step_rel(pre: Self, post: Self, r: Result<(), BfError>) -> bool {
        &&& pre.wf()
        &&& pre.pc < pre.code@.len()
        &&& post.wf()
        &&& post.code == pre.code
        &&& match pre.code@[pre.pc as int] {
            Inst::Right => {
                &&& post.mem == pre.mem
                &&& post.reader == pre.reader
                &&& post.writer == pre.writer
                &&& if pre.ptr + 1 < pre.mem@.len() {
                    r is Ok && post.ptr == pre.ptr + 1 && post.pc == pre.pc + 1
                } else {
                    r == Err::<(), BfError>(BfError::PointerOutOfBounds) && post.ptr == pre.ptr
                        && post.pc == pre.pc
                }
            },
            Inst::Left => {
                &&& post.mem == pre.mem
                &&& post.reader == pre.reader
                &&& post.writer == pre.writer
                &&& if pre.ptr >= 1 {
                    r is Ok && post.ptr == pre.ptr - 1 && post.pc == pre.pc + 1
                } else {
                    r == Err::<(), BfError>(BfError::PointerOutOfBounds) && post.ptr == pre.ptr
                        && post.pc == pre.pc
                }
            },
            Inst::Inc => {
                &&& r is Ok
                &&& post.mem@ == pre.mem@.update(
                    pre.ptr as int,
                    wrap_inc(pre.mem@[pre.ptr as int]),
                )
                &&& post.ptr == pre.ptr
                &&& post.pc == pre.pc + 1
                &&& post.reader == pre.reader
                &&& post.writer == pre.writer
            },
            Inst::Dec => {
                &&& r is Ok
                &&& post.mem@ == pre.mem@.update(
                    pre.ptr as int,
                    wrap_dec(pre.mem@[pre.ptr as int]),
                )
                &&& post.ptr == pre.ptr
                &&& post.pc == pre.pc + 1
                &&& post.reader == pre.reader
                &&& post.writer == pre.writer
            },
            Inst::Out => {
                &&& post.mem == pre.mem
                &&& post.ptr == pre.ptr
                &&& post.reader == pre.reader
                &&& if r is Ok {
                    post.writer.out() == pre.writer.out() + W::render(pre.mem@[pre.ptr as int])
                        && post.pc == pre.pc + 1
                } else {
                    r == Err::<(), BfError>(BfError::IOFailure) && post.writer.out()
                        == pre.writer.out() && post.pc == pre.pc
                }
            },
            Inst::In => {
                &&& post.ptr == pre.ptr
                &&& post.writer == pre.writer
                &&& if r is Ok {
                    ({
                        let v: u8 = if pre.reader.remaining().len() > 0 {
                            pre.reader.remaining()[0]
                        } else {
                            0
                        };
                        &&& post.mem@ == pre.mem@.update(pre.ptr as int, v)
                        &&& post.reader.remaining() == (if pre.reader.remaining().len() > 0 {
                            pre.reader.remaining().drop_first()
                        } else {
                            pre.reader.remaining()
                        })
                        &&& post.pc == pre.pc + 1
                    })
                } else {
                    r == Err::<(), BfError>(BfError::IOFailure) && post.mem == pre.mem
                        && post.reader.remaining() == pre.reader.remaining() && post.pc == pre.pc
                }
            },
            Inst::Enter(target) => {
                &&& r is Ok
                &&& post.mem == pre.mem
                &&& post.ptr == pre.ptr
                &&& post.reader == pre.reader
                &&& post.writer == pre.writer
                &&& post.pc == (if pre.mem@[pre.ptr as int] == 0 {
                    target + 1
                } else {
                    pre.pc + 1
                })
            },
            Inst::Exit(target) => {
                &&& r is Ok
                &&& post.mem == pre.mem
                &&& post.ptr == pre.ptr
                &&& post.reader == pre.reader
                &&& post.writer == pre.writer
                &&& post.pc == (if pre.mem@[pre.ptr as int] != 0 {
                    target + 1
                } else {
                    pre.pc + 1
                })
            },
        }
    }

    /// `post` is what `pre` becomes after exactly `k` successful steps of
    /// the machine's small-step semantics.
    pub open spec fn reaches(pre: Self, post: Self, k: nat) -> bool
        decreases k,
    {
        if k == 0 {
            post == pre
        } else {
            exists|mid: Self|
                #[trigger] Self::step_rel(pre, mid, Ok(())) && Self::reaches(
                    mid,
                    post,
                    (k - 1) as nat,
                )
        }
    }

    proof fn lemma_reaches_snoc(a: Self, b: Self, c: Self, k: nat)
        requires
            Self::reaches(a, b, k),
            Self::step_rel(b, c, Ok(())),
        ensures
            Self::reaches(a, c, k + 1),
        decreases k,
    {
        if k == 0 {
            assert(Self::step_rel(a, c, Ok(())) && Self::reaches(c, c, 0));
        } else {
            let mid = choose|mid: Self|
                #[trigger] Self::step_rel(a, mid, Ok(())) && Self::reaches(
                    mid,
                    b,
                    (k - 1) as nat,
                );
            Self::lemma_reaches_snoc(mid, b, c, (k - 1) as nat);
            assert(Self::step_rel(a, mid, Ok(())) && Self::reaches(mid, c, k));
        }
    }

    /// Fetches and executes the one instruction at the program counter,
    /// then advances the counter — past the matching closer when an
    /// `Enter` sees a zero cell, back past the matching opener when an
    /// `Exit` sees a nonzero one. A failed move or port call aborts the
    /// step with the state otherwise untouched.
    pub fn step(&mut self) -> (r: Result<(), BfError>)
        requires
            old(self).wf(),
            old(self).pc < old(self).code@.len(),
        ensures
            Self::step_rel(*old(self), *final(self), r),
    {
        // binding the length keeps its machine bound in scope for the
        // counter advance below
        let _n: usize = self.code.len();
        let inst = self.code[self.pc];
        match inst {
            Inst::Right => {
                self.move_ptr(1)?;
            },
            Inst::Left => {
                self.move_ptr(-1)?;
            },
            Inst::Inc => {
                let v: u8 = self.mem[self.ptr];
                self.mem[self.ptr] = if v == 255 {
                    0
                } else {
                    v + 1
                };
            },
            Inst::Dec => {
                let v: u8 = self.mem[self.ptr];
                self.mem[self.ptr] = if v == 0 {
                    255
                } else {
                    v - 1
                };
            },
            Inst::Out => {
                self.writer.write(self.mem[self.ptr])?;
            },
            Inst::In => {
                let cell: u8 = self.reader.read()?;
                self.mem[self.ptr] = cell;
            },
            Inst::Enter(target) => {
                if self.mem[self.ptr] == 0 {
                    self.pc = target;
                }
            },
            Inst::Exit(target) => {
                if self.mem[self.ptr] != 0 {
                    self.pc = target;
                }
            },
        }
        self.pc = self.pc + 1;
        Ok(())
    }

    /// Drives the fetch-execute loop until the program counter reaches the
    /// end of the program, an instruction fails, or `max_steps`
    /// instructions have executed — every exec loop here must terminate,
    /// so one call carries a step budget and the caller re-invokes to
    /// continue; a program whose loops never exit then runs forever, as is
    /// inherent to the language being interpreted.
    ///
    /// `Ok(true)` means normal completion: some number of steps within the
    /// budget reached the counter one past the last instruction.
    /// `Ok(false)` means the budget ran out first: exactly `max_steps`
    /// steps executed without finishing. On failure, some steps within the
    /// budget reached a state whose instruction then failed — a move that
    /// would have left the tape (`PointerOutOfBounds`, the pointer kept as
    /// it was) or a port call that failed (`IOFailure`) — and the counter
    /// sits at that failing instruction.
    pub fn run(&mut self, max_steps: usize) -> (r: Result<bool, BfError>)
        requires
            old(self).wf(),
        ensures
            final(self).wf(),
            final(self).code == old(self).code,
            r is Ok ==> (r->Ok_0 <==> final(self).pc == final(self).code@.len()),
            r == Ok::<bool, BfError>(true) ==> exists|k: nat|
                k <= max_steps && #[trigger] Self::reaches(*old(self), *final(self), k),
            r == Ok::<bool, BfError>(false) ==> Self::reaches(
                *old(self),
                *final(self),
                max_steps as nat,
            ),
            r is Err ==> exists|k: nat, b: Self|
                k < max_steps && #[trigger] Self::reaches(*old(self), b, k) && Self::step_rel(
                    b,
                    *final(self),
                    Err(r->Err_0),
                ),
            r is Err ==> ({
                let post = *final(self);
                &&& post.pc < post.code@.len()
                &&& match post.code@[post.pc as int] {
                    Inst::Right => r->Err_0 == BfError::PointerOutOfBounds && post.ptr + 1
                        >= post.mem@.len(),
                    Inst::Left => r->Err_0 == BfError::PointerOutOfBounds && post.ptr == 0,
                    Inst::Out => r->Err_0 == BfError::IOFailure,
                    Inst::In => r->Err_0 == BfError::IOFailure,
                    _ => false,
                }
            }),
    {
        let mut steps: usize = 0;
        while steps < max_steps
            invariant
                self.wf(),
                self.code == old(self).code,
                steps <= max_steps,
                Self::reaches(*old(self), *self, steps as nat),
            decreases max_steps - steps,
        {
            if self.pc >= self.code.len() {
                return Ok(true);
            }
            let ghost prev = *self;
            match self.step() {
                Ok(()) => {
                    proof {
                        Self::lemma_reaches_snoc(*old(self), prev, *self, steps as nat);
                    }
                },
                Err(e) => {
                    return Err(e);
                },
            }
            steps = steps + 1;
        }
        Ok(self.pc >= self.code.len())
    }
}

} // verus!
