use vstd::prelude::*;
use super::{InterpCode, InterpIns, InterpreteError, Interpreter, InterprIOIn, InterprIOOut};

verus! {

/// The whole machine state between two opcodes: registers, tape and the
/// two byte streams.
pub struct MachineV {
    /// instruction pointer
    pub ip: int,
    /// data pointer
    pub dp: int,
    /// auxiliary register used by fused loop opcodes
    pub input_offset: int,
    /// the tape
    pub tape: Seq<u8>,
    /// bytes the input stream will still yield
    pub inp: Seq<u8>,
    /// bytes the output stream has accepted
    pub outp: Seq<u8>,
}

/// `t2` is `t1`, possibly extended with zero cells, far enough to hold
/// the data pointer.
pub open spec fn grown(t1: Seq<u8>, t2: Seq<u8>, dp: int) -> bool {
    &&& t2.len() >= t1.len()
    &&& t2.subrange(0, t1.len() as int) == t1
    &&& (forall|i: int| t1.len() <= i < t2.len() ==> t2[i] == 0)
    &&& dp < t2.len()
}

/// One successful step of the machine: the semantics of each opcode,
/// all cell arithmetic wrapping mod 256.
pub open spec fn step_ok(code: Seq<InterpIns>, c1: MachineV, c2: MachineV) -> bool {
    &&& 0 <= c1.ip < code.len()
    &&& 0 <= c1.dp < c1.tape.len()
    &&& match code[c1.ip] {
        InterpIns::Store { val, offset } => c1.dp >= offset && c2 == (MachineV {
            ip: c1.ip + 1,
            tape: c1.tape.update(c1.dp - offset, val),
            ..c1
        }),
        InterpIns::Add { val, offset } => c1.dp >= offset && c2 == (MachineV {
            ip: c1.ip + 1,
            tape: c1.tape.update(
                c1.dp - offset,
                c1.tape[c1.dp - offset].wrapping_add(val),
            ),
            ..c1
        }),
        InterpIns::Sub { val, offset } => c1.dp >= offset && c2 == (MachineV {
            ip: c1.ip + 1,
            tape: c1.tape.update(
                c1.dp - offset,
                c1.tape[c1.dp - offset].wrapping_sub(val),
            ),
            ..c1
        }),
        InterpIns::Mul { val, offset } => c1.dp >= offset && c2 == (MachineV {
            ip: c1.ip + 1,
            tape: c1.tape.update(
                c1.dp - offset,
                c1.tape[c1.dp - offset].wrapping_mul(val),
            ),
            ..c1
        }),
        InterpIns::PtrAdd { offset } => c1.dp + offset <= usize::MAX as int / 2 && c2.ip == c1.ip
            + 1 && c2.dp == c1.dp + offset && c2.input_offset == c1.input_offset && grown(
            c1.tape,
            c2.tape,
            c2.dp,
        ) && c2.inp == c1.inp && c2.outp == c1.outp,
        InterpIns::PtrSub { offset } => c1.dp >= offset && c2 == (MachineV {
            ip: c1.ip + 1,
            dp: c1.dp - offset,
            ..c1
        }),
        InterpIns::SetInputOffset { new_input_offset } => c2 == (MachineV {
            ip: c1.ip + 1,
            input_offset: new_input_offset as int,
            ..c1
        }),
        InterpIns::AddMove { mul, to } => c1.dp >= to && c1.dp >= c1.input_offset >= 0 && c2
            == (MachineV {
            ip: c1.ip + 1,
            tape: c1.tape.update(
                c1.dp - to,
                c1.tape[c1.dp - to].wrapping_add(
                    c1.tape[c1.dp - c1.input_offset].wrapping_mul(mul),
                ),
            ).update(c1.dp - c1.input_offset, 0),
            ..c1
        }),
        InterpIns::SubMove { mul, to } => c1.dp >= to && c1.dp >= c1.input_offset >= 0 && c2
            == (MachineV {
            ip: c1.ip + 1,
            tape: c1.tape.update(
                c1.dp - to,
                c1.tape[c1.dp - to].wrapping_sub(
                    c1.tape[c1.dp - c1.input_offset].wrapping_mul(mul),
                ),
            ).update(c1.dp - c1.input_offset, 0),
            ..c1
        }),
        InterpIns::MulMove { mul, to } => c1.dp >= to && c1.dp >= c1.input_offset >= 0 && c2
            == (MachineV {
            ip: c1.ip + 1,
            tape: c1.tape.update(
                c1.dp - to,
                c1.tape[c1.dp - to].wrapping_mul(
                    c1.tape[c1.dp - c1.input_offset].wrapping_mul(mul),
                ),
            ).update(c1.dp - c1.input_offset, 0),
            ..c1
        }),
        InterpIns::Move { to } => c1.dp >= to && c1.dp >= c1.input_offset >= 0 && c2 == (MachineV {
            ip: c1.ip + 1,
            tape: c1.tape.update(
                c1.dp - to,
                c1.tape[c1.dp - c1.input_offset],
            ).update(c1.dp - c1.input_offset, 0),
            ..c1
        }),
        InterpIns::Copy { to } => c1.dp >= to && c1.dp >= c1.input_offset >= 0 && c2 == (MachineV {
            ip: c1.ip + 1,
            tape: c1.tape.update(
                c1.dp - to,
                c1.tape[c1.dp - to].wrapping_add(c1.tape[c1.dp - c1.input_offset]),
            ),
            ..c1
        }),
        InterpIns::Putchar { offset } => c1.dp >= offset && c2 == (MachineV {
            ip: c1.ip + 1,
            outp: c1.outp.push(c1.tape[c1.dp - offset]),
            ..c1
        }),
        InterpIns::Getchar { offset } => c1.dp >= offset && c1.inp.len() > 0 && c2 == (MachineV {
            ip: c1.ip + 1,
            tape: c1.tape.update(c1.dp - offset, c1.inp[0]),
            inp: c1.inp.drop_first(),
            ..c1
        }),
        InterpIns::JmpT { dest } => c1.dp >= c1.input_offset >= 0 && c2 == (MachineV {
            ip: if c1.tape[c1.dp - c1.input_offset] != 0 {
                dest as int
            } else {
                c1.ip + 1
            },
            ..c1
        }),
        InterpIns::JmpF { dest } => c1.dp >= c1.input_offset >= 0 && c2 == (MachineV {
            ip: if c1.tape[c1.dp - c1.input_offset] == 0 {
                dest as int
            } else {
                c1.ip + 1
            },
            ..c1
        }),
        InterpIns::Jmp { dest } => c2 == (MachineV { ip: dest as int, ..c1 }),
    }
}

/// The machine moves from `c1` to `c2` in exactly `n` successful steps.
pub open spec fn reaches(code: Seq<InterpIns>, c1: MachineV, c2: MachineV, n: nat) -> bool
    decreases n,
{
    if n == 0 {
        c1 == c2
    } else {
        exists|mid: MachineV|
            reaches(code, c1, mid, (n - 1) as nat) && #[trigger] step_ok(code, mid, c2)
    }
}

/// A reached state stepping once is reached in one more step.
pub proof fn lemma_reaches_step(code: Seq<InterpIns>, a: MachineV, b: MachineV, c: MachineV, n: nat)
    requires
        reaches(code, a, b, n),
        step_ok(code, b, c),
    ensures
        reaches(code, a, c, n + 1),
{
    assert(reaches(code, a, b, ((n + 1) - 1) as nat));
}

/// The opcode at `c` asks for a cell left of the tape origin, or would
/// push the data pointer past the machine's address range.
pub open spec fn offset_fault(code: Seq<InterpIns>, c: MachineV) -> bool {
    0 <= c.ip < code.len() && match code[c.ip] {
        InterpIns::Store { val, offset } => c.dp < offset,
        InterpIns::Add { val, offset } => c.dp < offset,
        InterpIns::Sub { val, offset } => c.dp < offset,
        InterpIns::Mul { val, offset } => c.dp < offset,
        InterpIns::PtrAdd { offset } => c.dp + offset > usize::MAX as int / 2,
        InterpIns::PtrSub { offset } => false,
        InterpIns::SetInputOffset { new_input_offset } => false,
        InterpIns::AddMove { mul, to } => c.dp < to || c.dp < c.input_offset,
        InterpIns::SubMove { mul, to } => c.dp < to || c.dp < c.input_offset,
        InterpIns::MulMove { mul, to } => c.dp < to || c.dp < c.input_offset,
        InterpIns::Move { to } => c.dp < to || c.dp < c.input_offset,
        InterpIns::Copy { to } => c.dp < to || c.dp < c.input_offset,
        InterpIns::Putchar { offset } => c.dp < offset,
        InterpIns::Getchar { offset } => c.dp < offset,
        InterpIns::JmpT { dest } => c.dp < c.input_offset,
        InterpIns::JmpF { dest } => c.dp < c.input_offset,
        InterpIns::Jmp { dest } => false,
    }
}

/// The machine state an interpreter holds, together with the registers
/// the run keeps locally.
pub open spec fn conf_of<In: InterprIOIn, Out: InterprIOOut>(
    it: Interpreter<In, Out>,
    ip: int,
    input_offset: int,
) -> MachineV {
    MachineV {
        ip,
        dp: it.data_pointer as int,
        input_offset,
        tape: it.tape@,
        inp: it.io_in.io_view(),
        outp: it.io_out.io_view(),
    }
}

impl<In: InterprIOIn, Out: InterprIOOut> Interpreter<In, Out> {
    /// Grow the tape to the next power of two that covers the data
    /// pointer, so that the current cell exists.
    fn reserve_storage(&mut self) -> (r: Result<(), InterpreteError>)
        ensures
            (match r {
                Ok(_) => final(self).data_pointer == old(self).data_pointer && grown(
                    old(self).tape@,
                    final(self).tape@,
                    old(self).data_pointer as int,
                ),
                Err(_) => *final(self) == *old(self) && old(self).data_pointer as int
                    > usize::MAX as int / 2 && r matches Err(InterpreteError::InvalidOffset),
            }),
            final(self).io_in == old(self).io_in,
            final(self).io_out == old(self).io_out,
            r is Err <==> old(self).data_pointer as int > usize::MAX as int / 2,
    {
        let l = self.tape.len();
        let ptr = self.data_pointer;
        if ptr > usize::MAX / 2 {
            return Err(InterpreteError::InvalidOffset);
        }
        if ptr >= l {
            let mut cap: usize = 1;
            while cap < ptr + 1
                invariant
                    1 <= cap,
                    ptr <= usize::MAX / 2,
                decreases (if cap <= ptr {
                    ptr + 1 - cap
                } else {
                    0int
                }),
            {
                cap = cap * 2;
            }
            let ghost t0 = self.tape@;
            while self.tape.len() < cap
                invariant
                    self.tape@.len() >= t0.len(),
                    self.tape@.subrange(0, t0.len() as int) == t0,
                    forall|i: int| t0.len() <= i < self.tape@.len() ==> self.tape@[i] == 0,
                    self.data_pointer == ptr,
                    ptr + 1 <= cap,
                    self.io_in == old(self).io_in,
                    self.io_out == old(self).io_out,
                decreases cap - self.tape@.len(),
            {
                let ghost t1 = self.tape@;
                self.tape.push(0);
                proof {
                    assert(self.tape@.subrange(0, t0.len() as int) =~= t0);
                }
            }
        }
        proof {
            assert(self.tape@.subrange(0, old(self).tape@.len() as int) =~= old(self).tape@);
        }
        Ok(())
    }

    /// Execute up to `fuel` opcodes of the given code against the tape
    /// and the two streams.
    ///
    /// Every outcome leaves the interpreter in a machine state reachable
    /// from the starting one by the opcode semantics. `Ok(true)` means
    /// the run left the code and the output was flushed; `Ok(false)`
    /// means the fuel was spent first; an error names the opcode check
    /// or stream failure that stopped the run, leaving tape and streams
    /// as they stood.
    pub fn run_steps(&mut self, code: &InterpCode, fuel: u64) -> (r: Result<
        bool,
        InterpreteError,
    >)
        requires
            old(self).data_pointer <= usize::MAX / 2,
        ensures
            exists|n: nat, ip2: int, io2: int, t0: Seq<u8>|
                {
                    &&& grown(old(self).tape@, t0, old(self).data_pointer as int)
                    &&& #[trigger] reaches(
                        code.0@,
                        MachineV {
                            ip: 0,
                            dp: old(self).data_pointer as int,
                            input_offset: 0,
                            tape: t0,
                            inp: old(self).io_in.io_view(),
                            outp: old(self).io_out.io_view(),
                        },
                        conf_of(*final(self), ip2, io2),
                        n,
                    )
                    &&& (match r {
                        Ok(true) => ip2 >= code.0@.len(),
                        Ok(false) => n == fuel && 0 <= ip2 < code.0@.len(),
                        Err(InterpreteError::DataPointerUnderflow) => 0 <= ip2 < code.0@.len()
                            && (code.0@[ip2] matches InterpIns::PtrSub { offset }),
                        Err(InterpreteError::InvalidOffset) => offset_fault(
                            code.0@,
                            conf_of(*final(self), ip2, io2),
                        ),
                        Err(InterpreteError::IOError(_)) => ip2 >= code.0@.len() || (
                        code.0@[ip2] matches InterpIns::Putchar { offset }) || (code.0@[ip2]
                            matches InterpIns::Getchar { offset }),
                    })
                },
    {
        let ghost code_v = code.0@;
        let mut ip: usize = 0;
        let mut input_offset: u32 = 0;
        let mut fuel_left: u64 = fuel;
        match self.reserve_storage() {
            Ok(_) => {},
            Err(e) => {
                proof {
                    assert(false);
                }
                return Err(e);
            },
        }
        let ghost start = conf_of(*self, 0, 0);
        let ghost start_lit = MachineV {
            ip: 0,
            dp: old(self).data_pointer as int,
            input_offset: 0,
            tape: start.tape,
            inp: old(self).io_in.io_view(),
            outp: old(self).io_out.io_view(),
        };
        proof {
            assert(start == start_lit);
            assert(reaches(code_v, start, conf_of(*self, ip as int, input_offset as int), 0));
        }
        let n = code.0.len();
        while ip < n && fuel_left > 0
            invariant
                n == code_v.len(),
                code_v == code.0@,
                self.data_pointer < self.tape@.len(),
                fuel_left <= fuel,
                grown(old(self).tape@, start.tape, old(self).data_pointer as int),
                start == start_lit,
                start == (MachineV {
                    ip: 0,
                    dp: old(self).data_pointer as int,
                    input_offset: 0,
                    tape: start.tape,
                    inp: old(self).io_in.io_view(),
                    outp: old(self).io_out.io_view(),
                }),
                reaches(
                    code_v,
                    start,
                    conf_of(*self, ip as int, input_offset as int),
                    (fuel - fuel_left) as nat,
                ),
            decreases fuel_left,
        {
            let ghost pre = conf_of(*self, ip as int, input_offset as int);
            let ghost steps = (fuel - fuel_left) as nat;
            fuel_left = fuel_left - 1;
            let dp = self.data_pointer;
            match code.0[ip] {
                InterpIns::Store { val, offset } => {
                    if dp < offset as usize {
                        proof {
                            assert(grown(old(self).tape@, start.tape, old(self).data_pointer as int));
                            assert(conf_of(*self, ip as int, input_offset as int) == pre);
                            assert(reaches(code_v, start_lit, pre, steps));
                        }
                        return Err(InterpreteError::InvalidOffset);
                    }
                    self.tape.set(dp - offset as usize, val);
                    ip = ip + 1;
                },
                InterpIns::Add { val, offset } => {
                    if dp < offset as usize {
                        proof {
                            assert(grown(old(self).tape@, start.tape, old(self).data_pointer as int));
                            assert(conf_of(*self, ip as int, input_offset as int) == pre);
                            assert(reaches(code_v, start_lit, pre, steps));
                        }
                        return Err(InterpreteError::InvalidOffset);
                    }
                    let cur = self.tape[dp - offset as usize];
                    self.tape.set(dp - offset as usize, cur.wrapping_add(val));
                    ip = ip + 1;
                },
                InterpIns::Sub { val, offset } => {
                    if dp < offset as usize {
                        proof {
                            assert(grown(old(self).tape@, start.tape, old(self).data_pointer as int));
                            assert(conf_of(*self, ip as int, input_offset as int) == pre);
                            assert(reaches(code_v, start_lit, pre, steps));
                        }
                        return Err(InterpreteError::InvalidOffset);
                    }
                    let cur = self.tape[dp - offset as usize];
                    self.tape.set(dp - offset as usize, cur.wrapping_sub(val));
                    ip = ip + 1;
                },
                InterpIns::Mul { val, offset } => {
                    if dp < offset as usize {
                        proof {
                            assert(grown(old(self).tape@, start.tape, old(self).data_pointer as int));
                            assert(conf_of(*self, ip as int, input_offset as int) == pre);
                            assert(reaches(code_v, start_lit, pre, steps));
                        }
                        return Err(InterpreteError::InvalidOffset);
                    }
                    let cur = self.tape[dp - offset as usize];
                    self.tape.set(dp - offset as usize, cur.wrapping_mul(val));
                    ip = ip + 1;
                },
                InterpIns::PtrAdd { offset } => {
                    if dp > usize::MAX / 2 || offset as usize > usize::MAX / 2 - dp {
                        proof {
                            assert(grown(old(self).tape@, start.tape, old(self).data_pointer as int));
                            assert(conf_of(*self, ip as int, input_offset as int) == pre);
                            assert(reaches(code_v, start_lit, pre, steps));
                        }
                        return Err(InterpreteError::InvalidOffset);
                    }
                    self.data_pointer = dp + offset as usize;
                    match self.reserve_storage() {
                        Ok(_) => {},
                        Err(e) => {
                            proof {
                                assert(false);
                            }
                            return Err(e);
                        },
                    }
                    ip = ip + 1;
                    proof {
                        assert(self.tape@.subrange(0, pre.tape.len() as int) =~= pre.tape);
                    }
                },
                InterpIns::PtrSub { offset } => {
                    if dp < offset as usize {
                        proof {
                            assert(grown(old(self).tape@, start.tape, old(self).data_pointer as int));
                            assert(conf_of(*self, ip as int, input_offset as int) == pre);
                            assert(reaches(code_v, start_lit, pre, steps));
                        }
                        return Err(InterpreteError::DataPointerUnderflow);
                    }
                    self.data_pointer = dp - offset as usize;
                    ip = ip + 1;
                },
                InterpIns::SetInputOffset { new_input_offset } => {
                    input_offset = new_input_offset;
                    ip = ip + 1;
                },
                InterpIns::AddMove { mul, to } => {
                    if dp < to as usize || dp < input_offset as usize {
                        proof {
                            assert(grown(old(self).tape@, start.tape, old(self).data_pointer as int));
                            assert(conf_of(*self, ip as int, input_offset as int) == pre);
                            assert(reaches(code_v, start_lit, pre, steps));
                        }
                        return Err(InterpreteError::InvalidOffset);
                    }
                    let src = self.tape[dp - input_offset as usize];
                    let cur = self.tape[dp - to as usize];
                    self.tape.set(dp - to as usize, cur.wrapping_add(src.wrapping_mul(mul)));
                    self.tape.set(dp - input_offset as usize, 0);
                    ip = ip + 1;
                },
                InterpIns::SubMove { mul, to } => {
                    if dp < to as usize || dp < input_offset as usize {
                        proof {
                            assert(grown(old(self).tape@, start.tape, old(self).data_pointer as int));
                            assert(conf_of(*self, ip as int, input_offset as int) == pre);
                            assert(reaches(code_v, start_lit, pre, steps));
                        }
                        return Err(InterpreteError::InvalidOffset);
                    }
                    let src = self.tape[dp - input_offset as usize];
                    let cur = self.tape[dp - to as usize];
                    self.tape.set(dp - to as usize, cur.wrapping_sub(src.wrapping_mul(mul)));
                    self.tape.set(dp - input_offset as usize, 0);
                    ip = ip + 1;
                },
                InterpIns::MulMove { mul, to } => {
                    if dp < to as usize || dp < input_offset as usize {
                        proof {
                            assert(grown(old(self).tape@, start.tape, old(self).data_pointer as int));
                            assert(conf_of(*self, ip as int, input_offset as int) == pre);
                            assert(reaches(code_v, start_lit, pre, steps));
                        }
                        return Err(InterpreteError::InvalidOffset);
                    }
                    let src = self.tape[dp - input_offset as usize];
                    let cur = self.tape[dp - to as usize];
                    self.tape.set(dp - to as usize, cur.wrapping_mul(src.wrapping_mul(mul)));
                    self.tape.set(dp - input_offset as usize, 0);
                    ip = ip + 1;
                },
                InterpIns::Move { to } => {
                    if dp < to as usize || dp < input_offset as usize {
                        proof {
                            assert(grown(old(self).tape@, start.tape, old(self).data_pointer as int));
                            assert(conf_of(*self, ip as int, input_offset as int) == pre);
                            assert(reaches(code_v, start_lit, pre, steps));
                        }
                        return Err(InterpreteError::InvalidOffset);
                    }
                    let src = self.tape[dp - input_offset as usize];
                    self.tape.set(dp - to as usize, src);
                    self.tape.set(dp - input_offset as usize, 0);
                    ip = ip + 1;
                },
                InterpIns::Copy { to } => {
                    if dp < to as usize || dp < input_offset as usize {
                        proof {
                            assert(grown(old(self).tape@, start.tape, old(self).data_pointer as int));
                            assert(conf_of(*self, ip as int, input_offset as int) == pre);
                            assert(reaches(code_v, start_lit, pre, steps));
                        }
                        return Err(InterpreteError::InvalidOffset);
                    }
                    let src = self.tape[dp - input_offset as usize];
                    let cur = self.tape[dp - to as usize];
                    self.tape.set(dp - to as usize, cur.wrapping_add(src));
                    ip = ip + 1;
                },
                InterpIns::Putchar { offset } => {
                    if dp < offset as usize {
                        proof {
                            assert(grown(old(self).tape@, start.tape, old(self).data_pointer as int));
                            assert(conf_of(*self, ip as int, input_offset as int) == pre);
                            assert(reaches(code_v, start_lit, pre, steps));
                        }
                        return Err(InterpreteError::InvalidOffset);
                    }
                    let ch = self.tape[dp - offset as usize];
                    match self.io_out.putchar(ch) {
                        Ok(_) => {},
                        Err(e) => {
                            proof {
                                assert(grown(old(self).tape@, start.tape, old(self).data_pointer as int));
                                assert(conf_of(*self, ip as int, input_offset as int) == pre);
                                assert(reaches(code_v, start_lit, pre, steps));
                            }
                            return Err(InterpreteError::IOError(e));
                        },
                    }
                    ip = ip + 1;
                },
                InterpIns::Getchar { offset } => {
                    if dp < offset as usize {
                        proof {
                            assert(grown(old(self).tape@, start.tape, old(self).data_pointer as int));
                            assert(conf_of(*self, ip as int, input_offset as int) == pre);
                            assert(reaches(code_v, start_lit, pre, steps));
                        }
                        return Err(InterpreteError::InvalidOffset);
                    }
                    match self.io_in.getchar() {
                        Ok(ch) => {
                            self.tape.set(dp - offset as usize, ch);
                        },
                        Err(e) => {
                            proof {
                                assert(grown(old(self).tape@, start.tape, old(self).data_pointer as int));
                                assert(conf_of(*self, ip as int, input_offset as int) == pre);
                                assert(reaches(code_v, start_lit, pre, steps));
                            }
                            return Err(InterpreteError::IOError(e));
                        },
                    }
                    ip = ip + 1;
                },
                InterpIns::JmpT { dest } => {
                    if dp < input_offset as usize {
                        proof {
                            assert(grown(old(self).tape@, start.tape, old(self).data_pointer as int));
                            assert(conf_of(*self, ip as int, input_offset as int) == pre);
                            assert(reaches(code_v, start_lit, pre, steps));
                        }
                        return Err(InterpreteError::InvalidOffset);
                    }
                    if self.tape[dp - input_offset as usize] != 0 {
                        ip = dest as usize;
                    } else {
                        ip = ip + 1;
                    }
                },
                InterpIns::JmpF { dest } => {
                    if dp < input_offset as usize {
                        proof {
                            assert(grown(old(self).tape@, start.tape, old(self).data_pointer as int));
                            assert(conf_of(*self, ip as int, input_offset as int) == pre);
                            assert(reaches(code_v, start_lit, pre, steps));
                        }
                        return Err(InterpreteError::InvalidOffset);
                    }
                    if self.tape[dp - input_offset as usize] == 0 {
                        ip = dest as usize;
                    } else {
                        ip = ip + 1;
                    }
                },
                InterpIns::Jmp { dest } => {
                    ip = dest as usize;
                },
            }
            proof {
                assert(step_ok(code_v, pre, conf_of(*self, ip as int, input_offset as int)));
                lemma_reaches_step(
                    code_v,
                    start,
                    pre,
                    conf_of(*self, ip as int, input_offset as int),
                    steps,
                );
            }
        }
        let ghost fin_steps = (fuel - fuel_left) as nat;
        proof {
            assert(grown(old(self).tape@, start.tape, old(self).data_pointer as int));
            assert(reaches(
                code_v,
                start_lit,
                conf_of(*self, ip as int, input_offset as int),
                fin_steps,
            ));
        }
        if ip < n {
            return Ok(false);
        }
        match self.io_out.flush() {
            Ok(_) => {
                proof {
                    assert(reaches(
                        code_v,
                        start_lit,
                        conf_of(*self, ip as int, input_offset as int),
                        fin_steps,
                    ));
                }
                Ok(true)
            },
            Err(e) => {
                proof {
                    assert(reaches(
                        code_v,
                        start_lit,
                        conf_of(*self, ip as int, input_offset as int),
                        fin_steps,
                    ));
                }
                Err(InterpreteError::IOError(e))
            },
        }
    }
}

} // verus!
