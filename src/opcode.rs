//! The instruction set and its fixed-width byte encoding.
use vstd::prelude::*;

verus! {

pub const OP_CONSTANT: u8 = 0x01;

pub const OP_POP: u8 = 0x02;

pub const OP_ADD: u8 = 0x03;

pub const OP_SUB: u8 = 0x04;

pub const OP_MUL: u8 = 0x05;

pub const OP_DIV: u8 = 0x06;

pub const OP_PLUS: u8 = 0x0A;

pub const OP_MINUS: u8 = 0x0B;

/// One machine instruction. `OpConstant` carries an index into the constant pool.
#[derive(Clone, Copy, Debug, PartialEq, Eq, Structural)]
pub enum OpCode {
    OpConstant(u16),
    OpPop,
    OpAdd,
    OpSub,
    OpMul,
    OpDiv,
    OpPlus,
    OpMinus,
}

/// The wire form of an instruction: its tag byte, then for `OpConstant` the
/// pool index as two bytes, most significant first.
pub open spec fn encode(op: OpCode) -> Seq<u8> {
    match op {
        OpCode::OpConstant(idx) => seq![OP_CONSTANT, (idx / 256) as u8, (idx % 256) as u8],
        OpCode::OpPop => seq![OP_POP],
        OpCode::OpAdd => seq![OP_ADD],
        OpCode::OpSub => seq![OP_SUB],
        OpCode::OpMul => seq![OP_MUL],
        OpCode::OpDiv => seq![OP_DIV],
        OpCode::OpPlus => seq![OP_PLUS],
        OpCode::OpMinus => seq![OP_MINUS],
    }
}

/// The instruction that starts at `ip`, or `None` when the tag is unknown or
/// the operand bytes run past the end of the stream.
pub open spec fn decode(code: Seq<u8>, ip: int) -> Option<OpCode>
    recommends
        0 <= ip < code.len(),
{
    let tag = code[ip];
    if tag == OP_CONSTANT {
        if ip + 2 < code.len() {
            Some(OpCode::OpConstant((code[ip + 1] as int * 256 + code[ip + 2] as int) as u16))
        } else {
            None
        }
    } else if tag == OP_POP {
        Some(OpCode::OpPop)
    } else if tag == OP_ADD {
        Some(OpCode::OpAdd)
    } else if tag == OP_SUB {
        Some(OpCode::OpSub)
    } else if tag == OP_MUL {
        Some(OpCode::OpMul)
    } else if tag == OP_DIV {
        Some(OpCode::OpDiv)
    } else if tag == OP_PLUS {
        Some(OpCode::OpPlus)
    } else if tag == OP_MINUS {
        Some(OpCode::OpMinus)
    } else {
        None
    }
}

/// Whether a byte is the tag of some instruction.
pub open spec fn is_known_tag(tag: u8) -> bool {
    tag == OP_CONSTANT || tag == OP_POP || tag == OP_ADD || tag == OP_SUB || tag == OP_MUL
        || tag == OP_DIV || tag == OP_PLUS || tag == OP_MINUS
}

/// The number of bytes an instruction takes.
pub open spec fn width(op: OpCode) -> nat {
    encode(op).len()
}

/// Encodes one instruction.
pub fn make_op(op: OpCode) -> (r: Vec<u8>)
    ensures
        r@ == encode(op),
{
    match op {
        OpCode::OpConstant(idx) => vec![OP_CONSTANT, (idx / 256) as u8, (idx % 256) as u8],
        OpCode::OpPop => vec![OP_POP],
        OpCode::OpAdd => vec![OP_ADD],
        OpCode::OpSub => vec![OP_SUB],
        OpCode::OpMul => vec![OP_MUL],
        OpCode::OpDiv => vec![OP_DIV],
        OpCode::OpPlus => vec![OP_PLUS],
        OpCode::OpMinus => vec![OP_MINUS],
    }
}

/// Decodes the instruction at `ip`, checking every byte it reads against the stream's end.
pub fn read_op(code: &Vec<u8>, ip: usize) -> (r: Option<OpCode>)
    requires
        ip < code.len(),
    ensures
        r == decode(code@, ip as int),
{
    let tag = code[ip];
    if tag == OP_CONSTANT {
        if code.len() > 2 && ip < code.len() - 2 {
            let hi = code[ip + 1] as u16;
            let lo = code[ip + 2] as u16;
            Some(OpCode::OpConstant(hi * 256 + lo))
        } else {
            None
        }
    } else if tag == OP_POP {
        Some(OpCode::OpPop)
    } else if tag == OP_ADD {
        Some(OpCode::OpAdd)
    } else if tag == OP_SUB {
        Some(OpCode::OpSub)
    } else if tag == OP_MUL {
        Some(OpCode::OpMul)
    } else if tag == OP_DIV {
        Some(OpCode::OpDiv)
    } else if tag == OP_PLUS {
        Some(OpCode::OpPlus)
    } else if tag == OP_MINUS {
        Some(OpCode::OpMinus)
    } else {
        None
    }
}

/// Decoding an encoded instruction, wherever it stands in a stream, gives it back.
pub proof fn lemma_decode_encode(op: OpCode, code: Seq<u8>, ip: int)
    requires
        0 <= ip,
        ip + width(op) <= code.len(),
        code.subrange(ip, ip + width(op)) == encode(op),
    ensures
        decode(code, ip) == Some(op),
{
    assert(code[ip] == encode(op)[0]);
    if let OpCode::OpConstant(idx) = op {
        assert(code[ip + 1] == encode(op)[1]);
        assert(code[ip + 2] == encode(op)[2]);
    }
}

/// Whatever decodes at `ip` is encoded by the bytes found there.
pub proof fn lemma_encode_decode(code: Seq<u8>, ip: int)
    requires
        0 <= ip < code.len(),
        decode(code, ip) is Some,
    ensures
        ip + width(decode(code, ip).unwrap()) <= code.len(),
        code.subrange(ip, ip + width(decode(code, ip).unwrap())) == encode(decode(code, ip).unwrap()),
{
    let op = decode(code, ip).unwrap();
    if let OpCode::OpConstant(idx) = op {
        let hi = code[ip + 1] as int;
        let lo = code[ip + 2] as int;
        assert(idx as int == hi * 256 + lo);
        assert((hi * 256 + lo) / 256 == hi && (hi * 256 + lo) % 256 == lo) by (nonlinear_arith)
            requires
                0 <= hi < 256,
                0 <= lo < 256,
        ;
    }
    assert(code.subrange(ip, ip + width(op)) =~= encode(op));
}

} // verus!
