//! The interpreter: a fetch-dispatch loop over a finalized token
//! stream and a fixed tape of `STORAGE_SIZE` byte cells, together with
//! the small-step machine model both execution engines are specified
//! against.

use vstd::prelude::*;

verus! {

use crate::STORAGE_SIZE;
use crate::code::{Token, TokenStream, wf_stream};
use crate::io::{getchar, putchar};

/// The state of an execution: the tape, the data pointer, the
/// instruction pointer, the input bytes not yet consumed (as the whole
/// input with a read position), and the bytes written so far.
pub ghost struct Machine {
    /// The tape cells.
    pub tape: Seq<u8>,
    /// The data pointer.
    pub dp: int,
    /// The instruction pointer.
    pub ip: int,
    /// The whole input.
    pub inp: Seq<u8>,
    /// How many input bytes were consumed.
    pub pos: int,
    /// The output written so far.
    pub out: Seq<u8>,
}

/// The machine state at the start of an execution on the given input:
/// a zeroed tape, both pointers at zero, nothing read and nothing
/// written.
pub open spec fn init_machine(inp: Seq<u8>) -> Machine {
    Machine {
        tape: Seq::new(STORAGE_SIZE as nat, |i: int| 0u8),
        dp: 0,
        ip: 0,
        inp: inp,
        pos: 0,
        out: Seq::empty(),
    }
}

/// One step of the machine: dispatch on the opcode under the
/// instruction pointer. Reading past the end of the input yields zero
/// (end of file becomes the zero byte); output bytes with the high bit
/// set are suppressed by the port.
pub open spec fn step(prog: Seq<Token>, m: Machine) -> Machine {
    let cell = m.tape[m.dp];
    match prog[m.ip] {
        Token::Add(n) => Machine {
            tape: m.tape.update(m.dp, ((cell + n) % 256) as u8),
            ip: m.ip + 1,
            ..m
        },
        Token::Move(d) => Machine { dp: (m.dp + d) % (STORAGE_SIZE as int), ip: m.ip + 1, ..m },
        Token::Input => Machine {
            tape: m.tape.update(
                m.dp,
                if m.pos < m.inp.len() {
                    m.inp[m.pos]
                } else {
                    0u8
                },
            ),
            pos: if m.pos < m.inp.len() {
                m.pos + 1
            } else {
                m.pos
            },
            ip: m.ip + 1,
            ..m
        },
        Token::Output => Machine {
            out: if cell < 128 {
                m.out.push(cell)
            } else {
                m.out
            },
            ip: m.ip + 1,
            ..m
        },
        Token::OpenBr(j) => Machine {
            ip: if cell == 0 {
                m.ip + j + 1
            } else {
                m.ip + 1
            },
            ..m
        },
        Token::CloseBr(j) => Machine {
            ip: if cell != 0 {
                m.ip - j + 1
            } else {
                m.ip + 1
            },
            ..m
        },
        Token::ClearCell => Machine { tape: m.tape.update(m.dp, 0u8), ip: m.ip + 1, ..m },
        Token::AddTo(d) => {
            let t = (m.dp + d) % (STORAGE_SIZE as int);
            Machine {
                tape: m.tape.update(t, ((m.tape[t] + cell) % 256) as u8).update(m.dp, 0u8),
                ip: m.ip + 1,
                ..m
            }
        },
        Token::AddToCopy(d1, d2) => {
            let t1 = (m.dp + d1) % (STORAGE_SIZE as int);
            let t2 = (m.dp + d2) % (STORAGE_SIZE as int);
            let tape1 = m.tape.update(t1, ((m.tape[t1] + cell) % 256) as u8);
            let tape2 = tape1.update(t2, ((tape1[t2] + cell) % 256) as u8);
            Machine { tape: tape2.update(m.dp, 0u8), ip: m.ip + 1, ..m }
        },
    }
}

/// The machine after `k` steps; a state whose instruction pointer has
/// left the stream is absorbing.
pub open spec fn steps(prog: Seq<Token>, m: Machine, k: nat) -> Machine
    decreases k,
{
    if k == 0 || m.ip < 0 || m.ip >= prog.len() {
        m
    } else {
        steps(prog, step(prog, m), (k - 1) as nat)
    }
}

/// The execution has terminated: the instruction pointer stands one
/// past the last opcode.
pub open spec fn terminal(prog: Seq<Token>, m: Machine) -> bool {
    m.ip == prog.len()
}

/// The state invariant every execution keeps: the tape has its fixed
/// size, the data pointer is on the tape, the instruction pointer is
/// inside the stream or one past its end, and the read position is
/// within the input.
pub open spec fn machine_inv(prog: Seq<Token>, m: Machine) -> bool {
    &&& m.tape.len() == STORAGE_SIZE
    &&& 0 <= m.dp < STORAGE_SIZE
    &&& 0 <= m.ip <= prog.len()
    &&& 0 <= m.pos <= m.inp.len()
}

/// Pointer wrap law, one step: on a well-formed stream a step keeps the
/// data pointer on the tape and the instruction pointer inside the
/// stream, and never changes the input.
pub proof fn lemma_step_inv(prog: Seq<Token>, m: Machine)
    requires
        wf_stream(prog),
        machine_inv(prog, m),
        m.ip < prog.len(),
    ensures
        machine_inv(prog, step(prog, m)),
        step(prog, m).inp == m.inp,
{
    let ss = STORAGE_SIZE as int;
    assert(crate::code::op_valid(prog[m.ip]));
    match prog[m.ip] {
        Token::Move(d) => {
            assert(0 <= (m.dp + d) % ss < ss) by (nonlinear_arith)
                requires
                    ss > 0,
                    0 <= m.dp,
                    0 <= d,
            ;
        },
        Token::AddTo(d) => {
            assert(0 <= (m.dp + d) % ss < ss) by (nonlinear_arith)
                requires
                    ss > 0,
                    0 <= m.dp,
                    0 <= d,
            ;
        },
        Token::AddToCopy(d1, d2) => {
            assert(0 <= (m.dp + d1) % ss < ss && 0 <= (m.dp + d2) % ss < ss) by (nonlinear_arith)
                requires
                    ss > 0,
                    0 <= m.dp,
                    0 <= d1,
                    0 <= d2,
            ;
        },
        _ => {},
    }
}

/// Pointer wrap law: on a well-formed stream, after any number of steps
/// from a state satisfying the invariant — in particular from the
/// initial state — the data pointer satisfies
/// `0 <= data_ptr < STORAGE_SIZE`.
pub proof fn lemma_pointer_wrap(prog: Seq<Token>, m: Machine, k: nat)
    requires
        wf_stream(prog),
        machine_inv(prog, m),
    ensures
        machine_inv(prog, steps(prog, m, k)),
        steps(prog, m, k).inp == m.inp,
    decreases k,
{
    if k > 0 && 0 <= m.ip < prog.len() {
        lemma_step_inv(prog, m);
        lemma_pointer_wrap(prog, step(prog, m), (k - 1) as nat);
    }
}

/// Unfolding `steps` from the back: one more step after `k` steps.
pub proof fn lemma_steps_snoc(prog: Seq<Token>, m: Machine, k: nat)
    requires
        0 <= steps(prog, m, k).ip < prog.len(),
    ensures
        steps(prog, m, k + 1) == step(prog, steps(prog, m, k)),
    decreases k,
{
    if k == 0 {
        assert(steps(prog, m, 1) == steps(prog, step(prog, m), 0));
    } else {
        if m.ip < 0 || m.ip >= prog.len() {
            assert(steps(prog, m, k) == m);
            assert(false);
        } else {
            lemma_steps_snoc(prog, step(prog, m), (k - 1) as nat);
        }
    }
}

/// Perform one dispatch step of the pure interpreter: the exec-level
/// counterpart of [`step`].
#[verifier::rlimit(100)]
fn exec_step(
    prog: &TokenStream,
    tape: &mut Vec<u8>,
    data_ptr: &mut usize,
    ins_ptr: &mut usize,
    pos: &mut usize,
    input: &Vec<u8>,
    out: &mut Vec<u8>,
)
    requires
        old(tape)@.len() == STORAGE_SIZE,
        *old(data_ptr) < STORAGE_SIZE,
        *old(ins_ptr) < prog@.len(),
        prog@.len() <= usize::MAX,
        *old(pos) <= input@.len(),
        crate::code::op_valid(prog@[*old(ins_ptr) as int]),
        (match prog@[*old(ins_ptr) as int] {
            Token::OpenBr(j) => *old(ins_ptr) + j + 1 <= prog@.len(),
            Token::CloseBr(j) => j <= *old(ins_ptr),
            _ => true,
        }),
    ensures
        (Machine {
            tape: final(tape)@,
            dp: *final(data_ptr) as int,
            ip: *final(ins_ptr) as int,
            inp: input@,
            pos: *final(pos) as int,
            out: final(out)@,
        }) == step(
            prog@,
            Machine {
                tape: old(tape)@,
                dp: *old(data_ptr) as int,
                ip: *old(ins_ptr) as int,
                inp: input@,
                pos: *old(pos) as int,
                out: old(out)@,
            },
        ),
{
    let t = prog[*ins_ptr];
    match t {
        Token::Add(add_v) => {
            let c = tape[*data_ptr];
            tape.set(*data_ptr, c.wrapping_add(add_v));
            *ins_ptr = *ins_ptr + 1;
        },
        Token::Move(d) => {
            proof {
                let ss = STORAGE_SIZE as int;
                assert((*data_ptr + d) % ss == if *data_ptr + d < ss {
                    *data_ptr + d
                } else {
                    *data_ptr + d - ss
                }) by (nonlinear_arith)
                    requires
                        0 <= *data_ptr < ss,
                        0 <= d < ss,
                ;
            }
            *data_ptr = *data_ptr + d;
            if *data_ptr >= STORAGE_SIZE {
                *data_ptr = *data_ptr - STORAGE_SIZE;
            }
            *ins_ptr = *ins_ptr + 1;
        },
        Token::Input => {
            let b: u8 = if *pos < input.len() {
                let b = input[*pos];
                *pos = *pos + 1;
                b
            } else {
                0
            };
            tape.set(*data_ptr, b);
            *ins_ptr = *ins_ptr + 1;
        },
        Token::Output => {
            let c = tape[*data_ptr];
            if c < 128 {
                out.push(c);
            }
            *ins_ptr = *ins_ptr + 1;
        },
        Token::OpenBr(jmp) => {
            if tape[*data_ptr] == 0 {
                *ins_ptr = *ins_ptr + jmp;
            }
            *ins_ptr = *ins_ptr + 1;
        },
        Token::CloseBr(jmp) => {
            if tape[*data_ptr] != 0 {
                *ins_ptr = *ins_ptr - jmp;
            }
            *ins_ptr = *ins_ptr + 1;
        },
        Token::ClearCell => {
            tape.set(*data_ptr, 0);
            *ins_ptr = *ins_ptr + 1;
        },
        Token::AddTo(d) => {
            proof {
                let ss = STORAGE_SIZE as int;
                assert((*data_ptr + d) % ss == if *data_ptr + d < ss {
                    *data_ptr + d
                } else {
                    *data_ptr + d - ss
                }) by (nonlinear_arith)
                    requires
                        0 <= *data_ptr < ss,
                        0 <= d < ss,
                ;
            }
            let mut t_idx = *data_ptr + d;
            if t_idx >= STORAGE_SIZE {
                t_idx = t_idx - STORAGE_SIZE;
            }
            let c = tape[*data_ptr];
            let v = tape[t_idx];
            tape.set(t_idx, v.wrapping_add(c));
            tape.set(*data_ptr, 0);
            *ins_ptr = *ins_ptr + 1;
        },
        Token::AddToCopy(d1, d2) => {
            proof {
                let ss = STORAGE_SIZE as int;
                assert((*data_ptr + d1) % ss == if *data_ptr + d1 < ss {
                    *data_ptr + d1
                } else {
                    *data_ptr + d1 - ss
                } && (*data_ptr + d2) % ss == if *data_ptr + d2 < ss {
                    *data_ptr + d2
                } else {
                    *data_ptr + d2 - ss
                }) by (nonlinear_arith)
                    requires
                        0 <= *data_ptr < ss,
                        0 <= d1 < ss,
                        0 <= d2 < ss,
                ;
            }
            let c = tape[*data_ptr];
            let mut t1 = *data_ptr + d1;
            if t1 >= STORAGE_SIZE {
                t1 = t1 - STORAGE_SIZE;
            }
            let v1 = tape[t1];
            tape.set(t1, v1.wrapping_add(c));
            let mut t2 = *data_ptr + d2;
            if t2 >= STORAGE_SIZE {
                t2 = t2 - STORAGE_SIZE;
            }
            let v2 = tape[t2];
            tape.set(t2, v2.wrapping_add(c));
            tape.set(*data_ptr, 0);
            *ins_ptr = *ins_ptr + 1;
        },
    }
}

/// Interpret a finalized token stream against a fixed input for at
/// most `max_steps` dispatched instructions: the pure core of the
/// interpreter, specified against the machine model. Returns the
/// produced output if the program terminates within the budget, and
/// nothing if the budget runs out first.
pub fn execute(token_stream: &TokenStream, input: &Vec<u8>, max_steps: u64) -> (r: Option<Vec<u8>>)
    requires
        wf_stream(token_stream@),
    ensures
        ({
            let m0 = init_machine(input@);
            match r {
                Some(out) => exists|k: nat|
                    {
                        let m = #[trigger] steps(token_stream@, m0, k);
                        k <= max_steps && terminal(token_stream@, m) && m.out == out@
                    },
                None => !terminal(token_stream@, steps(token_stream@, m0, max_steps as nat)),
            }
        }),
{
    let prog = token_stream;
    let n = prog.len();
    let mut tape: Vec<u8> = vec![0u8; STORAGE_SIZE];
    let mut data_ptr: usize = 0;
    let mut ins_ptr: usize = 0;
    let mut pos: usize = 0;
    let mut steps_done: u64 = 0;
    let mut out: Vec<u8> = Vec::new();
    let ghost m0 = init_machine(input@);
    let ghost mut k: nat = 0;
    proof {
        assert(tape@ =~= m0.tape);
    }
    while ins_ptr < n && steps_done < max_steps
        invariant
            wf_stream(prog@),
            n == prog@.len(),
            k == steps_done,
            steps_done <= max_steps,
            machine_inv(prog@, steps(prog@, m0, k)),
            steps(prog@, m0, k) == (Machine {
                tape: tape@,
                dp: data_ptr as int,
                ip: ins_ptr as int,
                inp: input@,
                pos: pos as int,
                out: out@,
            }),
        decreases max_steps - steps_done,
    {
        let ghost mk = steps(prog@, m0, k);
        proof {
            lemma_steps_snoc(prog@, m0, k);
            lemma_step_inv(prog@, mk);
            assert(crate::code::op_valid(prog@[ins_ptr as int]));
            assert(match prog@[ins_ptr as int] {
                Token::OpenBr(j) => ins_ptr + j + 1 <= prog@.len(),
                Token::CloseBr(j) => j <= ins_ptr,
                _ => true,
            });
        }
        exec_step(prog, &mut tape, &mut data_ptr, &mut ins_ptr, &mut pos, input, &mut out);
        steps_done = steps_done + 1;
        proof {
            k = k + 1;
        }
    }
    if ins_ptr == n {
        Some(out)
    } else {
        None
    }
}

/// Interpret a finalized token stream against the process's standard
/// streams: bytes are read from standard input through the port (which
/// drops carriage returns and turns end of file into zero) and written
/// to standard output (which suppresses bytes above 127). Each opcode
/// is dispatched by the same [`exec_step`] the pure interpreter uses,
/// fed one read byte when the opcode asks for input, so the stdio
/// engine performs exactly one machine [`step`] per opcode.
///
/// The dispatch loop carries a step budget of `u64::MAX` so that it
/// provably terminates; no realizable execution reaches that bound.
pub fn interpret(token_stream: TokenStream)
    requires
        wf_stream(token_stream@),
{
    let prog = token_stream;
    let n = prog.len();
    let mut tape: Vec<u8> = vec![0u8; STORAGE_SIZE];
    let mut data_ptr: usize = 0;
    let mut ins_ptr: usize = 0;
    let mut fuel: u64 = u64::MAX;
    while ins_ptr < n && fuel > 0
        invariant
            wf_stream(prog@),
            n == prog@.len(),
            tape@.len() == STORAGE_SIZE,
            data_ptr < STORAGE_SIZE,
            ins_ptr <= n,
        decreases fuel,
    {
        fuel = fuel - 1;
        // feed one read byte when the opcode asks for input; the port
        // applies the carriage-return and end-of-file policy
        let mut input: Vec<u8> = Vec::new();
        if matches!(prog[ins_ptr], Token::Input) {
            input.push(getchar());
        }
        let mut pos: usize = 0;
        let mut out: Vec<u8> = Vec::new();
        let ghost m_pre = Machine {
            tape: tape@,
            dp: data_ptr as int,
            ip: ins_ptr as int,
            inp: input@,
            pos: 0,
            out: Seq::empty(),
        };
        proof {
            assert(crate::code::op_valid(prog@[ins_ptr as int]));
            assert(match prog@[ins_ptr as int] {
                Token::OpenBr(j) => ins_ptr + j + 1 <= prog@.len(),
                Token::CloseBr(j) => j <= ins_ptr,
                _ => true,
            });
        }
        exec_step(&prog, &mut tape, &mut data_ptr, &mut ins_ptr, &mut pos, &input, &mut out);
        proof {
            lemma_step_inv(prog@, m_pre);
        }
        // write whatever the step produced (at most one byte; the
        // model already dropped bytes with the high bit set)
        let mut k: usize = 0;
        while k < out.len()
            invariant
                k <= out@.len(),
            decreases out@.len() - k,
        {
            putchar(out[k]);
            k = k + 1;
        }
    }
}

/// Doubling step: if some multiple of an odd `n` cancels `v` modulo
/// `p`, some multiple cancels it modulo `2 * p`.
proof fn lemma_odd_reach_double(v: int, n: int, p: int, q: int)
    requires
        n % 2 == 1,
        p >= 1,
        q == 2 * p,
        exists|t: int| 0 <= t && #[trigger] ((v + t * n) % p) == 0,
    ensures
        exists|t: int| 0 <= t && #[trigger] ((v + t * n) % q) == 0,
{
    let t0 = choose|t: int| 0 <= t && #[trigger] ((v + t * n) % p) == 0;
    let x = v + t0 * n;
    vstd::arithmetic::div_mod::lemma_fundamental_div_mod(x, p);
    let c = x / p;
    assert(x == c * p) by (nonlinear_arith)
        requires
            x == p * c + (x % p),
            x % p == 0,
    ;
    vstd::arithmetic::div_mod::lemma_fundamental_div_mod(c, 2);
    if c % 2 == 0 {
        let h = c / 2;
        assert(x == h * q) by (nonlinear_arith)
            requires
                x == c * p,
                c == 2 * h + (c % 2),
                c % 2 == 0,
                q == 2 * p,
        ;
        vstd::arithmetic::div_mod::lemma_mod_multiples_basic(h, q);
        assert(0 <= t0 && ((v + t0 * n) % q) == 0);
    } else {
        vstd::arithmetic::div_mod::lemma_mod_bound(c, 2);
        assert(c % 2 == 1);
        vstd::arithmetic::div_mod::lemma_fundamental_div_mod(n, 2);
        let t1 = t0 + p;
        let h = c / 2 + n / 2 + 1;
        assert(v + t1 * n == h * q) by (nonlinear_arith)
            requires
                x == c * p,
                x == v + t0 * n,
                t1 == t0 + p,
                c == 2 * (c / 2) + 1,
                n == 2 * (n / 2) + 1,
                h == c / 2 + n / 2 + 1,
                q == 2 * p,
        ;
        vstd::arithmetic::div_mod::lemma_mod_multiples_basic(h, q);
        assert(0 <= t1 && ((v + t1 * n) % q) == 0);
    }
}

/// Adding an odd byte repeatedly reaches every residue: some number of
/// additions cancels any starting value modulo 256.
proof fn lemma_odd_cancels(v: int, n: int)
    requires
        n % 2 == 1,
    ensures
        exists|t: int| 0 <= t && #[trigger] ((v + t * n) % 256) == 0,
{
    assert((v + 0 * n) % 1 == 0) by (nonlinear_arith);
    assert(exists|t: int| 0 <= t && #[trigger] ((v + t * n) % 1) == 0);
    lemma_odd_reach_double(v, n, 1, 2);
    lemma_odd_reach_double(v, n, 2, 4);
    lemma_odd_reach_double(v, n, 4, 8);
    lemma_odd_reach_double(v, n, 8, 16);
    lemma_odd_reach_double(v, n, 16, 32);
    lemma_odd_reach_double(v, n, 32, 64);
    lemma_odd_reach_double(v, n, 64, 128);
    lemma_odd_reach_double(v, n, 128, 256);
}

/// Running for `a + b` steps is running for `a`, then for `b`.
pub proof fn lemma_steps_add(prog: Seq<Token>, m: Machine, a: nat, b: nat)
    ensures
        steps(prog, m, a + b) == steps(prog, steps(prog, m, a), b),
    decreases a,
{
    if a > 0 && 0 <= m.ip < prog.len() {
        lemma_steps_add(prog, step(prog, m), (a - 1) as nat, b);
    } else if a > 0 {
        assert(steps(prog, m, a) == m);
        assert(steps(prog, m, a + b) == m);
        assert(steps(prog, m, b) == m);
    }
}

/// The loop whose body is the single addition `Add(n)`: the recognized
/// clear-cell shape, with its jump distances resolved.
pub open spec fn clear_prog(n: u8) -> Seq<Token> {
    seq![Token::OpenBr(2usize), Token::Add(n), Token::CloseBr(2usize)]
}

/// Inside a clear loop standing at `off`: if some further number of
/// additions cancels the cell, the loop terminates with the cell
/// zeroed and nothing else changed.
proof fn lemma_clear_body(n: u8, prog: Seq<Token>, off: int, m: Machine, t: nat)
    requires
        0 <= off,
        off + 3 <= prog.len(),
        prog[off] == Token::OpenBr(2usize),
        prog[off + 1] == Token::Add(n),
        prog[off + 2] == Token::CloseBr(2usize),
        0 <= m.dp < m.tape.len(),
        m.ip == off + 1,
        t >= 1,
        (m.tape[m.dp] + t * n) % 256 == 0,
    ensures
        exists|k: nat|
            #[trigger] steps(prog, m, k) == (Machine {
                tape: m.tape.update(m.dp, 0u8),
                ip: off + 3,
                ..m
            }),
    decreases t,
{
    let c = m.tape[m.dp];
    let m1 = step(prog, m);
    let c1 = ((c + n) % 256) as u8;
    assert(m1 == Machine { tape: m.tape.update(m.dp, c1), ip: off + 2, ..m });
    assert(m1.tape[m.dp] == c1);
    let m2 = step(prog, m1);
    assert(steps(prog, m, 2) == m2) by {
        assert(steps(prog, m1, 1) == steps(prog, m2, 0));
        assert(steps(prog, m, 2) == steps(prog, m1, 1));
    }
    if c1 == 0 {
        assert(m2 == Machine { tape: m.tape.update(m.dp, c1), ip: off + 3, ..m });
        assert(m.tape.update(m.dp, c1) =~= m.tape.update(m.dp, 0u8));
        assert(steps(prog, m, 2) == (Machine { tape: m.tape.update(m.dp, 0u8), ip: off + 3, ..m }));
    } else {
        assert(m2 == Machine { tape: m.tape.update(m.dp, c1), ip: off + 1, ..m });
        // one full pass consumed one of the budgeted additions
        assert((c1 + (t - 1) * n) % 256 == 0) by {
            assert(c + t * n == (c + n) + (t - 1) * n) by (nonlinear_arith);
            vstd::arithmetic::div_mod::lemma_add_mod_noop_right((t - 1) * n, c + n, 256);
            assert(((t - 1) * n + (c + n) % 256) % 256 == ((t - 1) * n + (c + n)) % 256);
        }
        if t == 1 {
            assert((c + n) % 256 == 0) by (nonlinear_arith)
                requires
                    (c + 1 * n) % 256 == 0,
            ;
            assert(c1 == 0);
            assert(false);
        }
        assert(m2.tape[m2.dp] == c1);
        lemma_clear_body(n, prog, off, m2, (t - 1) as nat);
        let k2 = choose|k: nat|
            #[trigger] steps(prog, m2, k) == (Machine {
                tape: m2.tape.update(m2.dp, 0u8),
                ip: off + 3,
                ..m2
            });
        lemma_steps_add(prog, m, 2, k2);
        assert(m2.tape.update(m2.dp, 0u8) =~= m.tape.update(m.dp, 0u8));
        assert(steps(prog, m, 2 + k2) == (Machine {
            tape: m.tape.update(m.dp, 0u8),
            ip: off + 3,
            ..m
        }));
    }
}

/// A clear loop standing at `off` zeroes the current cell and changes
/// nothing else, for any odd increment and any starting cell value.
proof fn lemma_clear_at(n: u8, prog: Seq<Token>, off: int, m: Machine)
    requires
        n % 2 == 1,
        0 <= off,
        off + 3 <= prog.len(),
        prog[off] == Token::OpenBr(2usize),
        prog[off + 1] == Token::Add(n),
        prog[off + 2] == Token::CloseBr(2usize),
        0 <= m.dp < m.tape.len(),
        m.ip == off,
    ensures
        exists|k: nat|
            #[trigger] steps(prog, m, k) == (Machine {
                tape: m.tape.update(m.dp, 0u8),
                ip: off + 3,
                ..m
            }),
{
    let c = m.tape[m.dp];
    if c == 0 {
        let m1 = step(prog, m);
        assert(m1 == Machine { ip: off + 3, ..m });
        assert(m.tape.update(m.dp, 0u8) =~= m.tape);
        assert(steps(prog, m1, 0) == m1);
        assert(steps(prog, m, 1) == steps(prog, m1, 0));
        assert(steps(prog, m, 1) == (Machine { tape: m.tape.update(m.dp, 0u8), ip: off + 3, ..m }));
    } else {
        let m1 = step(prog, m);
        assert(m1 == Machine { ip: off + 1, ..m });
        lemma_odd_cancels(c as int, n as int);
        let t = choose|t: int| 0 <= t && #[trigger] ((c + t * n) % 256) == 0;
        if t == 0 {
            assert((c + 0 * n) % 256 == c) by (nonlinear_arith)
                requires
                    0 <= c < 256,
            ;
            assert(false);
        }
        lemma_clear_body(n, prog, off, m1, t as nat);
        let k2 = choose|k: nat|
            #[trigger] steps(prog, m1, k) == (Machine {
                tape: m1.tape.update(m1.dp, 0u8),
                ip: off + 3,
                ..m1
            });
        lemma_steps_add(prog, m, 1, k2);
        assert(steps(prog, m, 1 + k2) == (Machine {
            tape: m.tape.update(m.dp, 0u8),
            ip: off + 3,
            ..m
        }));
    }
}

/// Equivalence of the recognized clear pattern: executing the loop
/// whose body adds any odd byte to the current cell terminates, from
/// any starting cell value, leaving the cell at zero and the rest of
/// the machine unchanged — exactly the effect of a single `ClearCell`
/// opcode. (For an even nonzero increment the loop reaches zero only
/// from cell values whose parity matches, so the law is stated for the
/// odd increments.)
pub proof fn lemma_clear_loop_equiv(n: u8, m: Machine)
    requires
        n % 2 == 1,
        0 <= m.dp < m.tape.len(),
        m.ip == 0,
    ensures
        exists|k: nat|
            #[trigger] steps(clear_prog(n), m, k) == (Machine {
                tape: m.tape.update(m.dp, 0u8),
                ip: 3,
                ..m
            }),
        step(seq![Token::ClearCell], m) == (Machine { tape: m.tape.update(m.dp, 0u8), ip: 1, ..m }),
{
    lemma_clear_at(n, clear_prog(n), 0, m);
}

/// The clear loop wrapped in `j` redundant outer loops, with every
/// jump distance resolved: the shape the optimizer collapses into a
/// single `ClearCell`.
pub open spec fn nested_clear(n: u8, j: nat) -> Seq<Token>
    decreases j,
{
    if j == 0 {
        clear_prog(n)
    } else {
        let inner = nested_clear(n, (j - 1) as nat);
        seq![Token::OpenBr((inner.len() + 1) as usize)] + inner + seq![
            Token::CloseBr((inner.len() + 1) as usize),
        ]
    }
}

/// The nested clear shape has one open and one close bracket per
/// level around the three tokens of the core.
proof fn lemma_nested_clear_len(n: u8, j: nat)
    ensures
        nested_clear(n, j).len() == 2 * j + 3,
    decreases j,
{
    if j > 0 {
        lemma_nested_clear_len(n, (j - 1) as nat);
    }
}

/// A nested clear shape standing at `off` zeroes the current cell and
/// changes nothing else: the loops around the core run its body at
/// most once.
proof fn lemma_nested_clear_at(n: u8, j: nat, prog: Seq<Token>, off: int, m: Machine)
    requires
        n % 2 == 1,
        2 * j + 2 <= usize::MAX,
        0 <= off,
        off + 2 * j + 3 <= prog.len(),
        prog.subrange(off, off + 2 * j + 3) == nested_clear(n, j),
        0 <= m.dp < m.tape.len(),
        m.ip == off,
    ensures
        exists|k: nat|
            #[trigger] steps(prog, m, k) == (Machine {
                tape: m.tape.update(m.dp, 0u8),
                ip: off + 2 * j + 3,
                ..m
            }),
    decreases j,
{
    lemma_nested_clear_len(n, j);
    let shape = nested_clear(n, j);
    if j == 0 {
        assert(prog[off] == shape[0] && prog[off + 1] == shape[1] && prog[off + 2] == shape[2]);
        lemma_clear_at(n, prog, off, m);
    } else {
        let inner = nested_clear(n, (j - 1) as nat);
        lemma_nested_clear_len(n, (j - 1) as nat);
        assert(shape[0] == Token::OpenBr((2 * j + 2) as usize));
        assert(shape[shape.len() - 1] == Token::CloseBr((2 * j + 2) as usize));
        assert(prog[off] == shape[0]);
        let c = m.tape[m.dp];
        if c == 0 {
            let m1 = step(prog, m);
            assert(m1 == Machine { ip: off + 2 * j + 3, ..m });
            assert(m.tape.update(m.dp, 0u8) =~= m.tape);
            assert(steps(prog, m1, 0) == m1);
            assert(steps(prog, m, 1) == steps(prog, m1, 0));
            assert(steps(prog, m, 1) == (Machine {
                tape: m.tape.update(m.dp, 0u8),
                ip: off + 2 * j + 3,
                ..m
            }));
        } else {
            let m1 = step(prog, m);
            assert(m1 == Machine { ip: off + 1, ..m });
            assert(prog.subrange(off + 1, off + 1 + 2 * (j - 1) + 3) =~= inner) by {
                assert forall|q: int| 0 <= q < inner.len() implies prog.subrange(
                    off + 1,
                    off + 1 + 2 * (j - 1) + 3,
                )[q] == inner[q] by {
                    assert(prog.subrange(off + 1, off + 1 + 2 * (j - 1) + 3)[q] == prog[off + 1
                        + q]);
                    assert(prog[off + 1 + q] == shape[1 + q]);
                    assert(shape[1 + q] == inner[q]);
                }
            }
            lemma_nested_clear_at(n, (j - 1) as nat, prog, off + 1, m1);
            let k1 = choose|k: nat|
                #[trigger] steps(prog, m1, k) == (Machine {
                    tape: m1.tape.update(m1.dp, 0u8),
                    ip: off + 1 + 2 * (j - 1) + 3,
                    ..m1
                });
            let m2 = Machine { tape: m.tape.update(m.dp, 0u8), ip: off + 2 * j + 2, ..m };
            assert(steps(prog, m1, k1) == m2);
            // the cell is now zero, so the outer close bracket falls through
            assert(prog[off + 2 * j + 2] == shape[shape.len() - 1]);
            assert(m2.tape[m2.dp] == 0u8);
            let m3 = step(prog, m2);
            assert(m3 == Machine { tape: m.tape.update(m.dp, 0u8), ip: off + 2 * j + 3, ..m });
            lemma_steps_add(prog, m, 1, k1);
            assert(steps(prog, m, 1 + k1) == m2);
            lemma_steps_add(prog, m, 1 + k1, 1);
            assert(steps(prog, m2, 1) == steps(prog, m3, 0));
            assert(steps(prog, m, 1 + k1 + 1) == m3);
        }
    }
}

/// Equivalence of the nested clear pattern: executing the clear loop
/// wrapped in any number of redundant outer loops terminates, from any
/// starting cell value, leaving the cell at zero and the rest of the
/// machine unchanged — exactly the effect of a single `ClearCell`
/// opcode, for any odd increment in the core.
pub proof fn lemma_nested_clear_equiv(n: u8, j: nat, m: Machine)
    requires
        n % 2 == 1,
        2 * j + 2 <= usize::MAX,
        0 <= m.dp < m.tape.len(),
        m.ip == 0,
    ensures
        exists|k: nat|
            #[trigger] steps(nested_clear(n, j), m, k) == (Machine {
                tape: m.tape.update(m.dp, 0u8),
                ip: 2 * (j as int) + 3,
                ..m
            }),
        step(seq![Token::ClearCell], m) == (Machine { tape: m.tape.update(m.dp, 0u8), ip: 1, ..m }),
{
    lemma_nested_clear_len(n, j);
    assert(nested_clear(n, j).subrange(0, 2 * (j as int) + 3) =~= nested_clear(n, j));
    lemma_nested_clear_at(n, j, nested_clear(n, j), 0, m);
}

/// The loop that moves the current cell to the cell `d1` away:
/// subtract one, move by `d1`, add one, move back by `d2`, with the
/// moves cancelling — the recognized add-to shape, with its jump
/// distances resolved.
pub open spec fn addto_loop_prog(d1: usize, d2: usize) -> Seq<Token> {
    seq![
        Token::OpenBr(5usize),
        Token::Add(255u8),
        Token::Move(d1),
        Token::Add(1u8),
        Token::Move(d2),
        Token::CloseBr(5usize),
    ]
}

/// The tape after an add-to of the current cell into the cell at
/// distance `d1`: the destination has grown by the source cell and the
/// source cell is zero.
pub open spec fn addto_result(tape: Seq<u8>, dp: int, d1: usize) -> Seq<u8> {
    let td = (dp + d1) % (STORAGE_SIZE as int);
    tape.update(td, ((tape[td] + tape[dp]) % 256) as u8).update(dp, 0u8)
}

/// The arithmetic facts about the two move distances of the add-to
/// shape: the destination is a different cell, and the second move
/// returns to the source.
proof fn lemma_addto_geometry(d1: usize, d2: usize, dp: int)
    requires
        1 <= d1 < STORAGE_SIZE,
        1 <= d2 < STORAGE_SIZE,
        (d1 + d2) % (STORAGE_SIZE as int) == 0,
        0 <= dp < STORAGE_SIZE,
    ensures
        0 <= (dp + d1) % (STORAGE_SIZE as int) < STORAGE_SIZE,
        (dp + d1) % (STORAGE_SIZE as int) != dp,
        ((dp + d1) % (STORAGE_SIZE as int) + d2) % (STORAGE_SIZE as int) == dp,
{
    let ss = STORAGE_SIZE as int;
    let td = (dp + d1) % ss;
    vstd::arithmetic::div_mod::lemma_mod_bound(dp + d1, ss);
    vstd::arithmetic::div_mod::lemma_fundamental_div_mod(dp + d1, ss);
    let q = (dp + d1) / ss;
    assert(dp + d1 == ss * q + td);
    if td == dp {
        assert(d1 == ss * q) by (nonlinear_arith)
            requires
                dp + d1 == ss * q + td,
                td == dp,
        ;
        assert(q * ss == ss * q) by (nonlinear_arith);
        if q <= 0 {
            assert(ss * q <= 0) by (nonlinear_arith)
                requires
                    q <= 0,
                    ss > 0,
            ;
        } else {
            assert(ss * q >= ss) by (nonlinear_arith)
                requires
                    q >= 1,
                    ss > 0,
            ;
        }
        assert(false);
    }
    // the two distances sum to exactly one turn of the tape
    vstd::arithmetic::div_mod::lemma_fundamental_div_mod(d1 + d2, ss);
    let q2 = (d1 + d2) / ss;
    assert(d1 + d2 == ss * q2);
    assert(q2 == 1) by (nonlinear_arith)
        requires
            d1 + d2 == ss * q2,
            2 <= d1 + d2 <= 2 * ss - 2,
            ss > 2,
    ;
    // moving by d2 from the destination lands back on the source
    vstd::arithmetic::div_mod::lemma_small_mod(d2 as nat, ss as nat);
    vstd::arithmetic::div_mod::lemma_add_mod_noop(dp + d1, d2 as int, ss);
    assert((td + (d2 as int) % ss) % ss == (dp + d1 + d2) % ss);
    assert(dp + d1 + d2 == ss * 1 + dp) by (nonlinear_arith)
        requires
            d1 + d2 == ss * 1,
    ;
    vstd::arithmetic::div_mod::lemma_fundamental_div_mod_converse(dp + d1 + d2, ss, 1, dp);
}

/// Inside the add-to loop, with the source cell nonzero: the loop
/// terminates having moved the source cell's remaining value onto the
/// destination and zeroed the source, touching nothing else.
#[verifier::rlimit(100)]
#[verifier::spinoff_prover]
proof fn lemma_addto_body(d1: usize, d2: usize, m: Machine)
    requires
        1 <= d1 < STORAGE_SIZE,
        1 <= d2 < STORAGE_SIZE,
        (d1 + d2) % (STORAGE_SIZE as int) == 0,
        m.tape.len() == STORAGE_SIZE,
        0 <= m.dp < STORAGE_SIZE,
        m.ip == 1,
        m.tape[m.dp] >= 1,
    ensures
        exists|k: nat|
            #[trigger] steps(addto_loop_prog(d1, d2), m, k) == (Machine {
                tape: addto_result(m.tape, m.dp, d1),
                ip: 6,
                ..m
            }),
    decreases m.tape[m.dp],
{
    let ss = STORAGE_SIZE as int;
    let prog = addto_loop_prog(d1, d2);
    let c = m.tape[m.dp];
    let dp = m.dp;
    let td = (dp + d1) % ss;
    lemma_addto_geometry(d1, d2, dp);
    assert(prog[1] == Token::Add(255u8));
    assert(prog[2] == Token::Move(d1));
    assert(prog[3] == Token::Add(1u8));
    assert(prog[4] == Token::Move(d2));
    assert(prog[5] == Token::CloseBr(5usize));
    let cm1 = ((c + 255) % 256) as u8;
    assert(cm1 == c - 1) by (nonlinear_arith)
        requires
            1 <= c < 256,
            cm1 == ((c + 255) % 256) as u8,
    ;
    let m1 = step(prog, m);
    assert(m1 == Machine { tape: m.tape.update(dp, cm1), ip: 2, ..m });
    let m2 = step(prog, m1);
    assert(m2 == Machine { tape: m1.tape, dp: td, ip: 3, ..m });
    let dv = ((m.tape[td] + 1) % 256) as u8;
    assert(m2.tape[td] == m.tape[td]);
    let m3 = step(prog, m2);
    assert(m3 == Machine { tape: m1.tape.update(td, dv), dp: td, ip: 4, ..m });
    let m4 = step(prog, m3);
    assert(m4 == Machine { tape: m3.tape, dp: dp, ip: 5, ..m });
    assert(m4.tape[dp] == cm1);
    let m5 = step(prog, m4);
    assert(steps(prog, m, 5) == m5) by {
        assert(steps(prog, m4, 1) == steps(prog, m5, 0));
        assert(steps(prog, m3, 2) == steps(prog, m4, 1));
        assert(steps(prog, m2, 3) == steps(prog, m3, 2));
        assert(steps(prog, m1, 4) == steps(prog, m2, 3));
        assert(steps(prog, m, 5) == steps(prog, m1, 4));
    }
    if cm1 == 0 {
        assert(m5 == Machine { tape: m4.tape, ip: 6, ..m });
        assert(m4.tape =~= addto_result(m.tape, dp, d1)) by {
            assert(c == 1);
            assert(dv == ((m.tape[td] + c) % 256) as u8);
        }
        assert(steps(prog, m, 5) == (Machine { tape: addto_result(m.tape, dp, d1), ip: 6, ..m }));
    } else {
        assert(m5 == Machine { tape: m4.tape, ip: 1, ..m });
        assert(m5.tape[m5.dp] == cm1);
        lemma_addto_body(d1, d2, m5);
        let k2 = choose|k: nat|
            #[trigger] steps(prog, m5, k) == (Machine {
                tape: addto_result(m5.tape, m5.dp, d1),
                ip: 6,
                ..m5
            });
        lemma_steps_add(prog, m, 5, k2);
        assert(addto_result(m5.tape, dp, d1) =~= addto_result(m.tape, dp, d1)) by {
            assert(m5.tape[td] == dv && m5.tape[dp] == cm1);
            assert(((dv + cm1) % 256) as u8 == ((m.tape[td] + c) % 256) as u8) by {
                vstd::arithmetic::div_mod::lemma_add_mod_noop_right(
                    cm1 as int,
                    m.tape[td] + 1,
                    256,
                );
            }
        }
        assert(steps(prog, m, 5 + k2) == (Machine {
            tape: addto_result(m.tape, dp, d1),
            ip: 6,
            ..m
        }));
    }
}

/// Equivalence of the recognized add-to pattern: executing the loop
/// `OpenBr, Add(255), Move(d1), Add(1), Move(d2), CloseBr` with the
/// two moves cancelling around the tape terminates, from any starting
/// cells, having added the source cell onto the destination cell and
/// zeroed the source — exactly the effect of a single `AddTo(d1)`
/// opcode.
pub proof fn lemma_addto_loop_equiv(d1: usize, d2: usize, m: Machine)
    requires
        1 <= d1 < STORAGE_SIZE,
        1 <= d2 < STORAGE_SIZE,
        (d1 + d2) % (STORAGE_SIZE as int) == 0,
        m.tape.len() == STORAGE_SIZE,
        0 <= m.dp < STORAGE_SIZE,
        m.ip == 0,
    ensures
        exists|k: nat|
            #[trigger] steps(addto_loop_prog(d1, d2), m, k) == (Machine {
                tape: addto_result(m.tape, m.dp, d1),
                ip: 6,
                ..m
            }),
        step(seq![Token::AddTo(d1)], m) == (Machine {
            tape: addto_result(m.tape, m.dp, d1),
            ip: 1,
            ..m
        }),
{
    let ss = STORAGE_SIZE as int;
    let prog = addto_loop_prog(d1, d2);
    let c = m.tape[m.dp];
    let td = (m.dp + d1) % ss;
    lemma_addto_geometry(d1, d2, m.dp);
    assert(prog[0] == Token::OpenBr(5usize));
    if c == 0 {
        let m1 = step(prog, m);
        assert(m1 == Machine { ip: 6, ..m });
        assert(addto_result(m.tape, m.dp, d1) =~= m.tape) by {
            vstd::arithmetic::div_mod::lemma_small_mod(m.tape[td] as nat, 256);
        }
        assert(steps(prog, m1, 0) == m1);
        assert(steps(prog, m, 1) == steps(prog, m1, 0));
        assert(steps(prog, m, 1) == (Machine { tape: addto_result(m.tape, m.dp, d1), ip: 6, ..m }));
    } else {
        let m1 = step(prog, m);
        assert(m1 == Machine { ip: 1, ..m });
        lemma_addto_body(d1, d2, m1);
        let k2 = choose|k: nat|
            #[trigger] steps(prog, m1, k) == (Machine {
                tape: addto_result(m1.tape, m1.dp, d1),
                ip: 6,
                ..m1
            });
        lemma_steps_add(prog, m, 1, k2);
        assert(steps(prog, m, 1 + k2) == (Machine {
            tape: addto_result(m.tape, m.dp, d1),
            ip: 6,
            ..m
        }));
    }
}

/// The finalized echo program: add two, then loop over moving right,
/// adding two, moving back, reading a byte into the loop cell, writing
/// it out, and subtracting one.
pub open spec fn echo_prog() -> Seq<Token> {
    seq![
        Token::Add(2u8),
        Token::OpenBr(7usize),
        Token::Move(1usize),
        Token::Add(2u8),
        Token::Move((STORAGE_SIZE - 1) as usize),
        Token::Input,
        Token::Output,
        Token::Add(255u8),
        Token::CloseBr(7usize),
    ]
}

/// Echo law: for every input whose first byte is an ASCII character,
/// the first byte the echo program writes is exactly that byte, read
/// straight into the loop cell and written back out. The program goes
/// on echoing and exits its loop only when a read byte, decremented,
/// reaches zero; once the input is exhausted every further read
/// yields zero, so termination needs an input whose last delivered
/// byte is one — a test runs such an input to completion.
pub proof fn lemma_echo_first_byte(inp: Seq<u8>)
    requires
        inp.len() >= 1,
        inp[0] < 128,
    ensures
        steps(echo_prog(), init_machine(inp), 7).out == seq![inp[0]],
{
    let prog = echo_prog();
    let ss = STORAGE_SIZE as int;
    let m0 = init_machine(inp);
    assert((0int + 1) % ss == 1 && (1int + (ss - 1)) % ss == 0) by (nonlinear_arith)
        requires
            ss > 2,
    ;
    let m1 = step(prog, m0);
    assert(m1 == Machine { tape: m0.tape.update(0, 2u8), ip: 1, ..m0 });
    let m2 = step(prog, m1);
    assert(m1.tape[0] == 2u8);
    assert(m2 == Machine { ip: 2, ..m1 });
    let m3 = step(prog, m2);
    assert(m3 == Machine { dp: 1, ip: 3, ..m2 });
    let m4 = step(prog, m3);
    assert(m3.tape[1] == 0u8);
    assert(m4 == Machine { tape: m3.tape.update(1, 2u8), dp: 1, ip: 4, ..m3 });
    let m5 = step(prog, m4);
    assert(m5 == Machine { dp: 0, ip: 5, ..m4 });
    let m6 = step(prog, m5);
    assert(m6 == Machine { tape: m5.tape.update(0, inp[0]), pos: 1, ip: 6, ..m5 });
    let m7 = step(prog, m6);
    assert(m6.tape[0] == inp[0]);
    assert(m7 == Machine { out: m6.out.push(inp[0]), ip: 7, ..m6 });
    assert(steps(prog, m0, 7) == m7) by {
        assert(steps(prog, m6, 1) == steps(prog, m7, 0));
        assert(steps(prog, m5, 2) == steps(prog, m6, 1));
        assert(steps(prog, m4, 3) == steps(prog, m5, 2));
        assert(steps(prog, m3, 4) == steps(prog, m4, 3));
        assert(steps(prog, m2, 5) == steps(prog, m3, 4));
        assert(steps(prog, m1, 6) == steps(prog, m2, 5));
        assert(steps(prog, m0, 7) == steps(prog, m1, 6));
    }
    assert(m7.out =~= seq![inp[0]]);
}

} // verus!
