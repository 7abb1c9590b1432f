use vstd::prelude::*;

verus! {

/// Side length of one CHIP-8 pixel on the host screen.
pub const SCALE: i32 = 10;
/// Width of the CHIP-8 display in pixels.
pub const DISPLAY_WIDTH: usize = 64;
/// Height of the CHIP-8 display in pixels.
pub const DISPLAY_HEIGHT: usize = 32;

/// A decoded CHIP-8 instruction.
#[derive(Clone, Copy, Debug, PartialEq, Eq, Structural)]
pub enum Opcode {
    Cls,
    Ret,
    Jp { addr: u16 },
    Call { addr: u16 },
    SeByte { x: u8, byte: u8 },
    SneByte { x: u8, byte: u8 },
    SeReg { x: u8, y: u8 },
    LdByte { x: u8, byte: u8 },
    AddByte { x: u8, byte: u8 },
    LdReg { x: u8, y: u8 },
    Or { x: u8, y: u8 },
    And { x: u8, y: u8 },
    Xor { x: u8, y: u8 },
    AddReg { x: u8, y: u8 },
    Sub { x: u8, y: u8 },
    Shr { x: u8 },
    SubN { x: u8, y: u8 },
    Shl { x: u8 },
    SneReg { x: u8, y: u8 },
    LdI { addr: u16 },
    JpV0 { addr: u16 },
    Rnd { x: u8, byte: u8 },
    Draw { x: u8, y: u8, n: u8 },
    Skp { x: u8 },
    Sknp { x: u8 },
    LdXDt { x: u8 },
    LdXK { x: u8 },
    LdDtX { x: u8 },
    LdStX { x: u8 },
    AddI { x: u8 },
    LdF { x: u8 },
    LdB { x: u8 },
    LdIReg { x: u8 },
    LdRegI { x: u8 },
    Unknown(u16),
}

/// The top nibble of an instruction word.
pub open spec fn word_kind(w: u16) -> int {
    w as int / 0x1000
}

/// The `x` register field: bits 8..12.
pub open spec fn word_x(w: u16) -> u8 {
    ((w as int / 0x100) % 16) as u8
}

/// The `y` register field: bits 4..8.
pub open spec fn word_y(w: u16) -> u8 {
    ((w as int / 0x10) % 16) as u8
}

/// The low nibble.
pub open spec fn word_n(w: u16) -> u8 {
    (w as int % 16) as u8
}

/// The low byte.
pub open spec fn word_kk(w: u16) -> u8 {
    (w as int % 0x100) as u8
}

/// The low twelve bits: an address.
pub open spec fn word_nnn(w: u16) -> u16 {
    (w as int % 0x1000) as u16
}

/// The instruction that a 16-bit word encodes, per the CHIP-8 instruction table.
pub open spec fn decode_spec(w: u16) -> Opcode {
    let x = word_x(w);
    let y = word_y(w);
    let n = word_n(w);
    let kk = word_kk(w);
    let nnn = word_nnn(w);
    let k = word_kind(w);
    if k == 0x0 {
        if w == 0x00E0 { Opcode::Cls } else if w == 0x00EE { Opcode::Ret } else { Opcode::Unknown(w) }
    } else if k == 0x1 {
        Opcode::Jp { addr: nnn }
    } else if k == 0x2 {
        Opcode::Call { addr: nnn }
    } else if k == 0x3 {
        Opcode::SeByte { x, byte: kk }
    } else if k == 0x4 {
        Opcode::SneByte { x, byte: kk }
    } else if k == 0x5 {
        if n == 0 { Opcode::SeReg { x, y } } else { Opcode::Unknown(w) }
    } else if k == 0x6 {
        Opcode::LdByte { x, byte: kk }
    } else if k == 0x7 {
        Opcode::AddByte { x, byte: kk }
    } else if k == 0x8 {
        if n == 0x0 { Opcode::LdReg { x, y } }
        else if n == 0x1 { Opcode::Or { x, y } }
        else if n == 0x2 { Opcode::And { x, y } }
        else if n == 0x3 { Opcode::Xor { x, y } }
        else if n == 0x4 { Opcode::AddReg { x, y } }
        else if n == 0x5 { Opcode::Sub { x, y } }
        else if n == 0x6 { Opcode::Shr { x } }
        else if n == 0x7 { Opcode::SubN { x, y } }
        else if n == 0xE { Opcode::Shl { x } }
        else { Opcode::Unknown(w) }
    } else if k == 0x9 {
        if n == 0 { Opcode::SneReg { x, y } } else { Opcode::Unknown(w) }
    } else if k == 0xA {
        Opcode::LdI { addr: nnn }
    } else if k == 0xB {
        Opcode::JpV0 { addr: nnn }
    } else if k == 0xC {
        Opcode::Rnd { x, byte: kk }
    } else if k == 0xD {
        Opcode::Draw { x, y, n }
    } else if k == 0xE {
        if kk == 0x9E { Opcode::Skp { x } }
        else if kk == 0xA1 { Opcode::Sknp { x } }
        else { Opcode::Unknown(w) }
    } else {
        if kk == 0x07 { Opcode::LdXDt { x } }
        else if kk == 0x0A { Opcode::LdXK { x } }
        else if kk == 0x15 { Opcode::LdDtX { x } }
        else if kk == 0x18 { Opcode::LdStX { x } }
        else if kk == 0x1E { Opcode::AddI { x } }
        else if kk == 0x29 { Opcode::LdF { x } }
        else if kk == 0x33 { Opcode::LdB { x } }
        else if kk == 0x55 { Opcode::LdIReg { x } }
        else if kk == 0x65 { Opcode::LdRegI { x } }
        else { Opcode::Unknown(w) }
    }
}

proof fn lemma_word_fields(raw: u16)
    ensures
        raw & 0x0FFF == word_nnn(raw),
        (raw & 0x00FF) as u8 == word_kk(raw),
        (raw & 0x000F) as u8 == word_n(raw),
        ((raw & 0x0F00) >> 8) as u8 == word_x(raw),
        ((raw & 0x00F0) >> 4) as u8 == word_y(raw),
        (raw & 0xF000) as int == word_kind(raw) * 0x1000,
{
    assert(raw & 0x0FFF == raw % 0x1000) by (bit_vector);
    assert(raw & 0x00FF == raw % 0x100) by (bit_vector);
    assert(raw & 0x000F == raw % 0x10) by (bit_vector);
    assert((raw & 0x0F00) >> 8 == (raw / 0x100) % 16) by (bit_vector);
    assert((raw & 0x00F0) >> 4 == (raw / 0x10) % 16) by (bit_vector);
    assert(raw & 0xF000 == (raw / 0x1000) * 0x1000) by (bit_vector);
}

impl Opcode {
    /// Decodes one instruction word.
    pub fn decode(raw: u16) -> (op: Opcode)
        ensures
            op == decode_spec(raw),
    {
        proof {
            lemma_word_fields(raw);
        }
        let nnn = raw & 0x0FFF;
        let nn = (raw & 0x00FF) as u8;
        let n = (raw & 0x000F) as u8;
        let x = ((raw & 0x0F00) >> 8) as u8;
        let y = ((raw & 0x00F0) >> 4) as u8;
        let kind = raw & 0xF000;
        if kind == 0x0000 {
            if raw == 0x00E0 { Opcode::Cls } else if raw == 0x00EE { Opcode::Ret } else { Opcode::Unknown(raw) }
        } else if kind == 0x1000 {
            Opcode::Jp { addr: nnn }
        } else if kind == 0x2000 {
            Opcode::Call { addr: nnn }
        } else if kind == 0x3000 {
            Opcode::SeByte { x, byte: nn }
        } else if kind == 0x4000 {
            Opcode::SneByte { x, byte: nn }
        } else if kind == 0x5000 && n == 0 {
            Opcode::SeReg { x, y }
        } else if kind == 0x6000 {
            Opcode::LdByte { x, byte: nn }
        } else if kind == 0x7000 {
            Opcode::AddByte { x, byte: nn }
        } else if kind == 0x8000 {
            match n {
                0x0 => Opcode::LdReg { x, y },
                0x1 => Opcode::Or { x, y },
                0x2 => Opcode::And { x, y },
                0x3 => Opcode::Xor { x, y },
                0x4 => Opcode::AddReg { x, y },
                0x5 => Opcode::Sub { x, y },
                0x6 => Opcode::Shr { x },
                0x7 => Opcode::SubN { x, y },
                0xE => Opcode::Shl { x },
                _ => Opcode::Unknown(raw),
            }
        } else if kind == 0x9000 && n == 0 {
            Opcode::SneReg { x, y }
        } else if kind == 0xA000 {
            Opcode::LdI { addr: nnn }
        } else if kind == 0xB000 {
            Opcode::JpV0 { addr: nnn }
        } else if kind == 0xC000 {
            Opcode::Rnd { x, byte: nn }
        } else if kind == 0xD000 {
            Opcode::Draw { x, y, n }
        } else if kind == 0xE000 {
            match nn {
                0x9E => Opcode::Skp { x },
                0xA1 => Opcode::Sknp { x },
                _ => Opcode::Unknown(raw),
            }
        } else if kind == 0xF000 {
            match nn {
                0x07 => Opcode::LdXDt { x },
                0x0A => Opcode::LdXK { x },
                0x15 => Opcode::LdDtX { x },
                0x18 => Opcode::LdStX { x },
                0x1E => Opcode::AddI { x },
                0x29 => Opcode::LdF { x },
                0x33 => Opcode::LdB { x },
                0x55 => Opcode::LdIReg { x },
                0x65 => Opcode::LdRegI { x },
                _ => Opcode::Unknown(raw),
            }
        } else {
            Opcode::Unknown(raw)
        }
    }
}


impl Opcode {
    /// The fields fit the instruction word they came from: registers and the
    /// sprite height are nibbles, addresses take twelve bits.
    pub open spec fn well_formed(self) -> bool {
        match self {
            Opcode::Jp { addr } | Opcode::Call { addr } | Opcode::LdI { addr } | Opcode::JpV0 { addr } =>
                addr < 0x1000,
            Opcode::SeByte { x, .. } | Opcode::SneByte { x, .. } | Opcode::LdByte { x, .. }
            | Opcode::AddByte { x, .. } | Opcode::Rnd { x, .. } => x < 16,
            Opcode::SeReg { x, y } | Opcode::LdReg { x, y } | Opcode::Or { x, y } | Opcode::And { x, y }
            | Opcode::Xor { x, y } | Opcode::AddReg { x, y } | Opcode::Sub { x, y } | Opcode::SubN { x, y }
            | Opcode::SneReg { x, y } => x < 16 && y < 16,
            Opcode::Draw { x, y, n } => x < 16 && y < 16 && n < 16,
            Opcode::Shr { x } | Opcode::Shl { x } | Opcode::Skp { x } | Opcode::Sknp { x }
            | Opcode::LdXDt { x } | Opcode::LdXK { x } | Opcode::LdDtX { x } | Opcode::LdStX { x }
            | Opcode::AddI { x } | Opcode::LdF { x } | Opcode::LdB { x } | Opcode::LdIReg { x }
            | Opcode::LdRegI { x } => x < 16,
            Opcode::Cls | Opcode::Ret | Opcode::Unknown(_) => true,
        }
    }
}

/// Every decoded instruction is well formed.
pub proof fn lemma_decode_well_formed(w: u16)
    ensures
        decode_spec(w).well_formed(),
{
}

/// The word with top nibble `k`, register fields `x` and `y` and low nibble `n`.
pub open spec fn xy_word(k: int, x: int, y: int, n: int) -> u16 {
    (0x1000 * k + 0x100 * x + 0x10 * y + n) as u16
}

/// The word with top nibble `k`, register field `x` and low byte `kk`.
pub open spec fn xkk_word(k: int, x: int, kk: int) -> u16 {
    (0x1000 * k + 0x100 * x + kk) as u16
}

/// The word with top nibble `k` and twelve-bit address `nnn`.
pub open spec fn nnn_word(k: int, nnn: int) -> u16 {
    (0x1000 * k + nnn) as u16
}

proof fn lemma_built_word_fields(k: int, x: int, y: int, n: int)
    requires
        0 <= k < 16,
        0 <= x < 16,
        0 <= y < 16,
        0 <= n < 16,
    ensures
        word_kind(xy_word(k, x, y, n)) == k,
        word_x(xy_word(k, x, y, n)) == x,
        word_y(xy_word(k, x, y, n)) == y,
        word_n(xy_word(k, x, y, n)) == n,
        word_kk(xy_word(k, x, y, n)) == 0x10 * y + n,
        word_nnn(xy_word(k, x, y, n)) == 0x100 * x + 0x10 * y + n,
        xy_word(k, x, y, n) == xkk_word(k, x, 0x10 * y + n),
        xy_word(k, x, y, n) == nnn_word(k, 0x100 * x + 0x10 * y + n),
{
    let w = 0x1000 * k + 0x100 * x + 0x10 * y + n;
    assert(w / 0x1000 == k && (w / 0x100) % 16 == x && (w / 0x10) % 16 == y && w % 16 == n
        && w % 0x100 == 0x10 * y + n && w % 0x1000 == 0x100 * x + 0x10 * y + n) by (nonlinear_arith)
        requires
            w == 0x1000 * k + 0x100 * x + 0x10 * y + n,
            0 <= k < 16,
            0 <= x < 16,
            0 <= y < 16,
            0 <= n < 16,
    ;
}

/// The flow-control and address forms of the CHIP-8 table: `00E0`, `00EE`, `1nnn`, `2nnn`, `Annn` and `Bnnn` decode to the instruction of that form with address `nnn`.
pub proof fn lemma_decode_flow_forms(nnn: u16)
    requires
        nnn < 0x1000,
    ensures
        decode_spec(0x00E0u16) == Opcode::Cls,
        decode_spec(0x00EEu16) == Opcode::Ret,
        decode_spec(nnn_word(0x1, nnn as int)) == (Opcode::Jp { addr: nnn }),
        decode_spec(nnn_word(0x2, nnn as int)) == (Opcode::Call { addr: nnn }),
        decode_spec(nnn_word(0xA, nnn as int)) == (Opcode::LdI { addr: nnn }),
        decode_spec(nnn_word(0xB, nnn as int)) == (Opcode::JpV0 { addr: nnn }),
{
    let (a, b, c) = (nnn as int / 0x100, (nnn as int / 0x10) % 16, nnn as int % 16);
    assert(nnn as int == 0x100 * a + 0x10 * b + c);
    assert(decode_spec(0x00E0u16) == Opcode::Cls) by {
        lemma_built_word_fields(0x0, 0x0, 0xE, 0x0);
    }
    assert(decode_spec(0x00EEu16) == Opcode::Ret) by {
        lemma_built_word_fields(0x0, 0x0, 0xE, 0xE);
    }
    assert(decode_spec(nnn_word(0x1, nnn as int)) == (Opcode::Jp { addr: nnn })) by {
        lemma_built_word_fields(0x1, a, b, c);
    }
    assert(decode_spec(nnn_word(0x2, nnn as int)) == (Opcode::Call { addr: nnn })) by {
        lemma_built_word_fields(0x2, a, b, c);
    }
    assert(decode_spec(nnn_word(0xA, nnn as int)) == (Opcode::LdI { addr: nnn })) by {
        lemma_built_word_fields(0xA, a, b, c);
    }
    assert(decode_spec(nnn_word(0xB, nnn as int)) == (Opcode::JpV0 { addr: nnn })) by {
        lemma_built_word_fields(0xB, a, b, c);
    }
}

/// The byte forms of the CHIP-8 table: `3xkk`, `4xkk`, `6xkk`, `7xkk` and `Cxkk` decode to the instruction of that form on register `x` with byte `kk`.
pub proof fn lemma_decode_byte_forms(x: u8, kk: u8)
    requires
        x < 16,
    ensures
        decode_spec(xkk_word(0x3, x as int, kk as int)) == (Opcode::SeByte { x, byte: kk }),
        decode_spec(xkk_word(0x4, x as int, kk as int)) == (Opcode::SneByte { x, byte: kk }),
        decode_spec(xkk_word(0x6, x as int, kk as int)) == (Opcode::LdByte { x, byte: kk }),
        decode_spec(xkk_word(0x7, x as int, kk as int)) == (Opcode::AddByte { x, byte: kk }),
        decode_spec(xkk_word(0xC, x as int, kk as int)) == (Opcode::Rnd { x, byte: kk }),
{
    let xi = x as int;
    let (hi, lo) = (kk as int / 16, kk as int % 16);
    assert(kk as int == 0x10 * hi + lo);
    assert(decode_spec(xkk_word(0x3, x as int, kk as int)) == (Opcode::SeByte { x, byte: kk })) by {
        lemma_built_word_fields(0x3, xi, hi, lo);
    }
    assert(decode_spec(xkk_word(0x4, x as int, kk as int)) == (Opcode::SneByte { x, byte: kk })) by {
        lemma_built_word_fields(0x4, xi, hi, lo);
    }
    assert(decode_spec(xkk_word(0x6, x as int, kk as int)) == (Opcode::LdByte { x, byte: kk })) by {
        lemma_built_word_fields(0x6, xi, hi, lo);
    }
    assert(decode_spec(xkk_word(0x7, x as int, kk as int)) == (Opcode::AddByte { x, byte: kk })) by {
        lemma_built_word_fields(0x7, xi, hi, lo);
    }
    assert(decode_spec(xkk_word(0xC, x as int, kk as int)) == (Opcode::Rnd { x, byte: kk })) by {
        lemma_built_word_fields(0xC, xi, hi, lo);
    }
}

/// The register forms of the CHIP-8 table: `5xy0`, `8xy0` to `8xy7`, `8xyE`, `9xy0` and `Dxyn` decode to the instruction of that form on registers `x` and `y` (and height `n`); in particular `8xy5` is `Sub` and `8xy7` is `SubN`.
pub proof fn lemma_decode_register_forms(x: u8, y: u8, n: u8)
    requires
        x < 16,
        y < 16,
        n < 16,
    ensures
        decode_spec(xy_word(0x5, x as int, y as int, 0)) == (Opcode::SeReg { x, y }),
        decode_spec(xy_word(0x8, x as int, y as int, 0x0)) == (Opcode::LdReg { x, y }),
        decode_spec(xy_word(0x8, x as int, y as int, 0x1)) == (Opcode::Or { x, y }),
        decode_spec(xy_word(0x8, x as int, y as int, 0x2)) == (Opcode::And { x, y }),
        decode_spec(xy_word(0x8, x as int, y as int, 0x3)) == (Opcode::Xor { x, y }),
        decode_spec(xy_word(0x8, x as int, y as int, 0x4)) == (Opcode::AddReg { x, y }),
        decode_spec(xy_word(0x8, x as int, y as int, 0x5)) == (Opcode::Sub { x, y }),
        decode_spec(xy_word(0x8, x as int, y as int, 0x6)) == (Opcode::Shr { x }),
        decode_spec(xy_word(0x8, x as int, y as int, 0x7)) == (Opcode::SubN { x, y }),
        decode_spec(xy_word(0x8, x as int, y as int, 0xE)) == (Opcode::Shl { x }),
        decode_spec(xy_word(0x9, x as int, y as int, 0)) == (Opcode::SneReg { x, y }),
        decode_spec(xy_word(0xD, x as int, y as int, n as int)) == (Opcode::Draw { x, y, n }),
{
    let (xi, yi, ni) = (x as int, y as int, n as int);
    assert(decode_spec(xy_word(0x5, x as int, y as int, 0)) == (Opcode::SeReg { x, y })) by {
        lemma_built_word_fields(0x5, xi, yi, 0);
    }
    assert(decode_spec(xy_word(0x8, x as int, y as int, 0x0)) == (Opcode::LdReg { x, y })) by {
        lemma_built_word_fields(0x8, xi, yi, 0x0);
    }
    assert(decode_spec(xy_word(0x8, x as int, y as int, 0x1)) == (Opcode::Or { x, y })) by {
        lemma_built_word_fields(0x8, xi, yi, 0x1);
    }
    assert(decode_spec(xy_word(0x8, x as int, y as int, 0x2)) == (Opcode::And { x, y })) by {
        lemma_built_word_fields(0x8, xi, yi, 0x2);
    }
    assert(decode_spec(xy_word(0x8, x as int, y as int, 0x3)) == (Opcode::Xor { x, y })) by {
        lemma_built_word_fields(0x8, xi, yi, 0x3);
    }
    assert(decode_spec(xy_word(0x8, x as int, y as int, 0x4)) == (Opcode::AddReg { x, y })) by {
        lemma_built_word_fields(0x8, xi, yi, 0x4);
    }
    assert(decode_spec(xy_word(0x8, x as int, y as int, 0x5)) == (Opcode::Sub { x, y })) by {
        lemma_built_word_fields(0x8, xi, yi, 0x5);
    }
    assert(decode_spec(xy_word(0x8, x as int, y as int, 0x6)) == (Opcode::Shr { x })) by {
        lemma_built_word_fields(0x8, xi, yi, 0x6);
    }
    assert(decode_spec(xy_word(0x8, x as int, y as int, 0x7)) == (Opcode::SubN { x, y })) by {
        lemma_built_word_fields(0x8, xi, yi, 0x7);
    }
    assert(decode_spec(xy_word(0x8, x as int, y as int, 0xE)) == (Opcode::Shl { x })) by {
        lemma_built_word_fields(0x8, xi, yi, 0xE);
    }
    assert(decode_spec(xy_word(0x9, x as int, y as int, 0)) == (Opcode::SneReg { x, y })) by {
        lemma_built_word_fields(0x9, xi, yi, 0);
    }
    assert(decode_spec(xy_word(0xD, x as int, y as int, n as int)) == (Opcode::Draw { x, y, n })) by {
        lemma_built_word_fields(0xD, xi, yi, ni);
    }
}

/// The key, timer and memory forms of the CHIP-8 table: `Ex9E`, `ExA1` and `Fx07` to `Fx65` decode to the instruction of that form on register `x`.
pub proof fn lemma_decode_key_and_memory_forms(x: u8)
    requires
        x < 16,
    ensures
        decode_spec(xkk_word(0xE, x as int, 0x9E)) == (Opcode::Skp { x }),
        decode_spec(xkk_word(0xE, x as int, 0xA1)) == (Opcode::Sknp { x }),
        decode_spec(xkk_word(0xF, x as int, 0x07)) == (Opcode::LdXDt { x }),
        decode_spec(xkk_word(0xF, x as int, 0x0A)) == (Opcode::LdXK { x }),
        decode_spec(xkk_word(0xF, x as int, 0x15)) == (Opcode::LdDtX { x }),
        decode_spec(xkk_word(0xF, x as int, 0x18)) == (Opcode::LdStX { x }),
        decode_spec(xkk_word(0xF, x as int, 0x1E)) == (Opcode::AddI { x }),
        decode_spec(xkk_word(0xF, x as int, 0x29)) == (Opcode::LdF { x }),
        decode_spec(xkk_word(0xF, x as int, 0x33)) == (Opcode::LdB { x }),
        decode_spec(xkk_word(0xF, x as int, 0x55)) == (Opcode::LdIReg { x }),
        decode_spec(xkk_word(0xF, x as int, 0x65)) == (Opcode::LdRegI { x }),
{
    let xi = x as int;
    assert(decode_spec(xkk_word(0xE, x as int, 0x9E)) == (Opcode::Skp { x })) by {
        lemma_built_word_fields(0xE, xi, 0x9, 0xe);
    }
    assert(decode_spec(xkk_word(0xE, x as int, 0xA1)) == (Opcode::Sknp { x })) by {
        lemma_built_word_fields(0xE, xi, 0xa, 0x1);
    }
    assert(decode_spec(xkk_word(0xF, x as int, 0x07)) == (Opcode::LdXDt { x })) by {
        lemma_built_word_fields(0xF, xi, 0x0, 0x7);
    }
    assert(decode_spec(xkk_word(0xF, x as int, 0x0A)) == (Opcode::LdXK { x })) by {
        lemma_built_word_fields(0xF, xi, 0x0, 0xa);
    }
    assert(decode_spec(xkk_word(0xF, x as int, 0x15)) == (Opcode::LdDtX { x })) by {
        lemma_built_word_fields(0xF, xi, 0x1, 0x5);
    }
    assert(decode_spec(xkk_word(0xF, x as int, 0x18)) == (Opcode::LdStX { x })) by {
        lemma_built_word_fields(0xF, xi, 0x1, 0x8);
    }
    assert(decode_spec(xkk_word(0xF, x as int, 0x1E)) == (Opcode::AddI { x })) by {
        lemma_built_word_fields(0xF, xi, 0x1, 0xe);
    }
    assert(decode_spec(xkk_word(0xF, x as int, 0x29)) == (Opcode::LdF { x })) by {
        lemma_built_word_fields(0xF, xi, 0x2, 0x9);
    }
    assert(decode_spec(xkk_word(0xF, x as int, 0x33)) == (Opcode::LdB { x })) by {
        lemma_built_word_fields(0xF, xi, 0x3, 0x3);
    }
    assert(decode_spec(xkk_word(0xF, x as int, 0x55)) == (Opcode::LdIReg { x })) by {
        lemma_built_word_fields(0xF, xi, 0x5, 0x5);
    }
    assert(decode_spec(xkk_word(0xF, x as int, 0x65)) == (Opcode::LdRegI { x })) by {
        lemma_built_word_fields(0xF, xi, 0x6, 0x5);
    }
}

/// The address of the first instruction of a program.
pub const PROGRAM_START: u16 = 0x200;

/// The built-in hexadecimal font: five rows of one byte for each digit 0..=F.
pub open spec fn fontset() -> Seq<u8> {
    seq![
        0xF0u8, 0x90, 0x90, 0x90, 0xF0,
        0x20, 0x60, 0x20, 0x20, 0x70,
        0xF0, 0x10, 0xF0, 0x80, 0xF0,
        0xF0, 0x10, 0xF0, 0x10, 0xF0,
        0x90, 0x90, 0xF0, 0x10, 0x10,
        0xF0, 0x80, 0xF0, 0x10, 0xF0,
        0xF0, 0x80, 0xF0, 0x90, 0xF0,
        0xF0, 0x10, 0x20, 0x40, 0x40,
        0xF0, 0x90, 0xF0, 0x90, 0xF0,
        0xF0, 0x90, 0xF0, 0x10, 0xF0,
        0xF0, 0x90, 0xF0, 0x90, 0x90,
        0xE0, 0x90, 0xE0, 0x90, 0xE0,
        0xF0, 0x80, 0x80, 0x80, 0xF0,
        0xE0, 0x90, 0x90, 0x90, 0xE0,
        0xF0, 0x80, 0xF0, 0x80, 0xF0,
        0xF0, 0x80, 0xF0, 0x80, 0x80
    ]
}

fn font_bytes() -> (r: Vec<u8>)
    ensures
        r@ == fontset(),
{
    let r = vec![
        0xF0u8, 0x90, 0x90, 0x90, 0xF0,
        0x20, 0x60, 0x20, 0x20, 0x70,
        0xF0, 0x10, 0xF0, 0x80, 0xF0,
        0xF0, 0x10, 0xF0, 0x10, 0xF0,
        0x90, 0x90, 0xF0, 0x10, 0x10,
        0xF0, 0x80, 0xF0, 0x10, 0xF0,
        0xF0, 0x80, 0xF0, 0x90, 0xF0,
        0xF0, 0x10, 0x20, 0x40, 0x40,
        0xF0, 0x90, 0xF0, 0x90, 0xF0,
        0xF0, 0x90, 0xF0, 0x10, 0xF0,
        0xF0, 0x90, 0xF0, 0x90, 0x90,
        0xE0, 0x90, 0xE0, 0x90, 0xE0,
        0xF0, 0x80, 0x80, 0x80, 0xF0,
        0xE0, 0x90, 0x90, 0x90, 0xE0,
        0xF0, 0x80, 0xF0, 0x80, 0xF0,
        0xF0, 0x80, 0xF0, 0x80, 0x80
    ];
    assert(r@ =~= fontset());
    r
}


/// The mathematical model of a machine: what every instruction reads and writes.
pub struct ChipView {
    pub memory: Seq<u8>,
    pub pc: u16,
    pub v: Seq<u8>,
    pub i: u16,
    pub stack: Seq<u16>,
    pub sp: u8,
    pub delay_timer: u8,
    pub sound_timer: u8,
    pub keys: Seq<bool>,
    pub display: Seq<bool>,
    pub draw_flag: bool,
    pub wait_for_key: Option<u8>,
    pub cycles_per_second: u32,
}

impl ChipView {
    /// The shape every machine keeps: 4 KiB of memory, sixteen registers,
    /// a sixteen-entry stack whose pointer never passes its end, sixteen keys,
    /// a 64x32 display, and a pending key wait only for an existing register.
    pub open spec fn wf(self) -> bool {
        &&& self.memory.len() == 4096
        &&& self.v.len() == 16
        &&& self.stack.len() == 16
        &&& self.sp <= 16
        &&& self.keys.len() == 16
        &&& self.display.len() == 2048
        &&& (self.wait_for_key matches Some(x) ==> x < 16)
    }

    /// The big-endian instruction word at the program counter.
    pub open spec fn current_word(self) -> u16 {
        (self.memory[self.pc as int] as int * 256 + self.memory[self.pc as int + 1] as int) as u16
    }
}

pub open spec fn set_v(s: ChipView, x: int, val: u8) -> ChipView {
    ChipView { v: s.v.update(x, val), ..s }
}

pub open spec fn skip_if(s: ChipView, c: bool) -> ChipView {
    if c { ChipView { pc: (s.pc + 2) as u16, ..s } } else { s }
}

/// Column of the sprite that lands on display cell `idx` when the sprite's
/// left edge is at `vx` (the display wraps horizontally).
pub open spec fn sprite_col(idx: int, vx: u8) -> int {
    (idx % 64 - vx as int % 64 + 64) % 64
}

/// Row of the sprite that lands on display cell `idx` when the sprite's
/// top edge is at `vy` (the display wraps vertically).
pub open spec fn sprite_row(idx: int, vy: u8) -> int {
    (idx / 64 - vy as int % 32 + 32) % 32
}

/// Whether a set sprite bit lands on display cell `idx`: the sprite has `n`
/// rows of one byte each, read from memory at `i`, most significant bit leftmost.
pub open spec fn sprite_pixel(mem: Seq<u8>, i: u16, vx: u8, vy: u8, n: u8, idx: int) -> bool {
    let c = sprite_col(idx, vx);
    let r = sprite_row(idx, vy);
    &&& c < 8
    &&& r < n
    &&& mem[i + r] & (0x80u8 >> (c as u8)) != 0
}

/// Whether drawing the sprite turns off a pixel that was on.
pub open spec fn sprite_collides(s: ChipView, vx: u8, vy: u8, n: u8) -> bool {
    exists|k: int| 0 <= k < 2048 && s.display[k] && #[trigger] sprite_pixel(s.memory, s.i, vx, vy, n, k)
}

/// `Dxyn`: XOR the sprite onto the display, VF tells whether a lit pixel went out.
pub open spec fn draw_spec(s: ChipView, x: u8, y: u8, n: u8) -> ChipView {
    let vx = s.v[x as int];
    let vy = s.v[y as int];
    ChipView {
        display: Seq::new(2048, |k: int| s.display[k] != sprite_pixel(s.memory, s.i, vx, vy, n, k)),
        v: s.v.update(15, if sprite_collides(s, vx, vy, n) { 1u8 } else { 0u8 }),
        draw_flag: true,
        ..s
    }
}

/// The program counter moved past the current instruction.
pub open spec fn advance(s: ChipView) -> ChipView {
    ChipView { pc: (s.pc + 2) as u16, ..s }
}

/// What `op` does to a state whose program counter already points past it.
/// `rnd` is the random byte that `Cxkk` masks.
pub open spec fn step_spec(s: ChipView, op: Opcode, rnd: u8) -> ChipView {
    match op {
        Opcode::Cls => ChipView { display: Seq::new(2048, |k: int| false), draw_flag: true, ..s },
        Opcode::Ret => ChipView { sp: (s.sp - 1) as u8, pc: s.stack[s.sp - 1], ..s },
        Opcode::Jp { addr } => ChipView { pc: addr, ..s },
        Opcode::Call { addr } => ChipView {
            stack: s.stack.update(s.sp as int, s.pc),
            sp: (s.sp + 1) as u8,
            pc: addr,
            ..s
        },
        Opcode::SeByte { x, byte } => skip_if(s, s.v[x as int] == byte),
        Opcode::SneByte { x, byte } => skip_if(s, s.v[x as int] != byte),
        Opcode::SeReg { x, y } => skip_if(s, s.v[x as int] == s.v[y as int]),
        Opcode::LdByte { x, byte } => set_v(s, x as int, byte),
        Opcode::AddByte { x, byte } => set_v(s, x as int, ((s.v[x as int] + byte) % 256) as u8),
        Opcode::LdReg { x, y } => set_v(s, x as int, s.v[y as int]),
        Opcode::Or { x, y } => set_v(s, x as int, s.v[x as int] | s.v[y as int]),
        Opcode::And { x, y } => set_v(s, x as int, s.v[x as int] & s.v[y as int]),
        Opcode::Xor { x, y } => set_v(s, x as int, s.v[x as int] ^ s.v[y as int]),
        Opcode::AddReg { x, y } => {
            let sum = s.v[x as int] + s.v[y as int];
            set_v(set_v(s, x as int, (sum % 256) as u8), 15, if sum > 255 { 1u8 } else { 0u8 })
        },
        Opcode::Sub { x, y } => set_v(
            set_v(s, x as int, ((s.v[x as int] - s.v[y as int] + 256) % 256) as u8),
            15,
            if s.v[x as int] >= s.v[y as int] { 1u8 } else { 0u8 },
        ),
        Opcode::Shr { x } => {
            let s1 = set_v(s, 15, s.v[x as int] % 2);
            set_v(s1, x as int, s1.v[x as int] / 2)
        },
        Opcode::SubN { x, y } => set_v(
            set_v(s, x as int, ((s.v[y as int] - s.v[x as int] + 256) % 256) as u8),
            15,
            if s.v[y as int] >= s.v[x as int] { 1u8 } else { 0u8 },
        ),
        Opcode::Shl { x } => {
            let s1 = set_v(s, 15, s.v[x as int] / 128);
            set_v(s1, x as int, ((s1.v[x as int] * 2) % 256) as u8)
        },
        Opcode::SneReg { x, y } => skip_if(s, s.v[x as int] != s.v[y as int]),
        Opcode::LdI { addr } => ChipView { i: addr, ..s },
        Opcode::JpV0 { addr } => ChipView { pc: (addr + s.v[0]) as u16, ..s },
        Opcode::Rnd { x, byte } => set_v(s, x as int, rnd & byte),
        Opcode::Draw { x, y, n } => draw_spec(s, x, y, n),
        Opcode::Skp { x } => skip_if(s, s.keys[s.v[x as int] as int]),
        Opcode::Sknp { x } => skip_if(s, !s.keys[s.v[x as int] as int]),
        Opcode::LdXDt { x } => set_v(s, x as int, s.delay_timer),
        Opcode::LdXK { x } => ChipView { wait_for_key: Some(x), ..s },
        Opcode::LdDtX { x } => ChipView { delay_timer: s.v[x as int], ..s },
        Opcode::LdStX { x } => ChipView { sound_timer: s.v[x as int], ..s },
        Opcode::AddI { x } => ChipView { i: ((s.i + s.v[x as int]) % 0x10000) as u16, ..s },
        Opcode::LdF { x } => ChipView { i: (s.v[x as int] * 5) as u16, ..s },
        Opcode::LdB { x } => {
            let vx = s.v[x as int];
            ChipView {
                memory: s.memory.update(s.i as int, vx / 100).update(s.i + 1, (vx / 10) % 10).update(
                    s.i + 2,
                    vx % 10,
                ),
                ..s
            }
        },
        Opcode::LdIReg { x } => ChipView {
            memory: Seq::new(
                s.memory.len(),
                |j: int| if s.i <= j <= s.i + x { s.v[j - s.i] } else { s.memory[j] },
            ),
            ..s
        },
        Opcode::LdRegI { x } => ChipView {
            v: Seq::new(16, |k: int| if k <= x { s.memory[s.i + k] } else { s.v[k] }),
            ..s
        },
        Opcode::Unknown(_) => s,
    }
}

/// The state after executing `op` with the program counter at the
/// instruction: the counter first moves past it, then the instruction acts.
pub open spec fn execute_spec(s: ChipView, op: Opcode, rnd: u8) -> ChipView {
    step_spec(advance(s), op, rnd)
}

/// Whether `op` runs to completion on a state whose program counter already
/// points past it. It does not on an unknown instruction, a stack underflow or
/// overflow, a key number past 0xF, a memory access past 0xFFF, or a program
/// counter pushed past 0xFFFF.
pub open spec fn can_step(s: ChipView, op: Opcode) -> bool {
    match op {
        Opcode::Ret => s.sp > 0,
        Opcode::Call { .. } => s.sp < 16,
        Opcode::SeByte { x, byte } => s.v[x as int] == byte ==> s.pc + 2 <= 0xFFFF,
        Opcode::SneByte { x, byte } => s.v[x as int] != byte ==> s.pc + 2 <= 0xFFFF,
        Opcode::SeReg { x, y } => s.v[x as int] == s.v[y as int] ==> s.pc + 2 <= 0xFFFF,
        Opcode::SneReg { x, y } => s.v[x as int] != s.v[y as int] ==> s.pc + 2 <= 0xFFFF,
        Opcode::JpV0 { addr } => addr + s.v[0] <= 0xFFFF,
        Opcode::Draw { n, .. } => n == 0 || s.i + n <= 4096,
        Opcode::Skp { x } => s.v[x as int] < 16 && (s.keys[s.v[x as int] as int] ==> s.pc + 2 <= 0xFFFF),
        Opcode::Sknp { x } => s.v[x as int] < 16 && (!s.keys[s.v[x as int] as int] ==> s.pc + 2 <= 0xFFFF),
        Opcode::LdB { .. } => s.i + 2 < 4096,
        Opcode::LdIReg { x } | Opcode::LdRegI { x } => s.i + x < 4096,
        Opcode::Unknown(_) => false,
        _ => true,
    }
}

/// Whether `op` runs to completion when the program counter is at it.
pub open spec fn can_execute(s: ChipView, op: Opcode) -> bool {
    &&& s.pc + 2 <= 0xFFFF
    &&& can_step(advance(s), op)
}

/// Whether one fetch-and-execute cycle runs to completion on `s`.
pub open spec fn can_cycle(s: ChipView) -> bool {
    &&& s.pc + 1 < 4096
    &&& can_execute(s, decode_spec(s.current_word()))
}

/// The state after one cycle: fetch the word at the program counter, decode and execute it.
pub open spec fn cycle_spec(s: ChipView, rnd: u8) -> ChipView {
    execute_spec(s, decode_spec(s.current_word()), rnd)
}

/// A timer after a tick count of `ticks` is applied: the count is taken as a
/// byte (modulo 256) and subtracted, stopping at zero.
pub open spec fn count_down(timer: u8, ticks: u32) -> u8 {
    let t = ticks as int % 256;
    if timer as int >= t { (timer - t) as u8 } else { 0u8 }
}

/// Timers after `ticks` ticks of the 60 Hz clock have passed: both count down
/// by the tick count taken modulo 256, stopping at zero; the sound timer only
/// while it runs.
pub open spec fn timers_spec(s: ChipView, ticks: u32) -> ChipView {
    if ticks > 0 {
        ChipView {
            delay_timer: count_down(s.delay_timer, ticks),
            sound_timer: if s.sound_timer > 0 { count_down(s.sound_timer, ticks) } else { s.sound_timer },
            ..s
        }
    } else {
        s
    }
}

/// The machine right after power-on: the font at the start of memory,
/// the program counter at 0x200, everything else zero, off or empty.
pub open spec fn initial_view() -> ChipView {
    ChipView {
        memory: fontset() + Seq::new(4016, |k: int| 0u8),
        pc: 0x200,
        v: Seq::new(16, |k: int| 0u8),
        i: 0,
        stack: Seq::new(16, |k: int| 0u16),
        sp: 0,
        delay_timer: 0,
        sound_timer: 0,
        keys: Seq::new(16, |k: int| false),
        display: Seq::new(2048, |k: int| false),
        draw_flag: false,
        wait_for_key: None,
        cycles_per_second: 500,
    }
}

/// Lit display cells, in row-major order, as `(column, row)` pairs, among the first `k` cells.
pub open spec fn lit_pixels(display: Seq<bool>, k: int) -> Seq<(usize, usize)>
    decreases k,
{
    if k <= 0 {
        seq![]
    } else {
        let rest = lit_pixels(display, k - 1);
        if display[k - 1] {
            rest.push((((k - 1) % 64) as usize, ((k - 1) / 64) as usize))
        } else {
            rest
        }
    }
}

/// The state of a CHIP-8 machine.
pub struct ChipVIIIState {
    memory: [u8; 4096],
    pc: u16,
    v: [u8; 16],
    i: u16,
    stack: [u16; 16],
    sp: u8,
    delay_timer: u8,
    sound_timer: u8,
    pub keys: [bool; 16],
    pub display: [bool; 2048],
    pub draw_flag: bool,
    pub wait_for_key: Option<u8>,
    pub cycles_per_second: u32,
}

impl View for ChipVIIIState {
    type V = ChipView;

    closed spec fn view(&self) -> ChipView {
        ChipView {
            memory: self.memory@,
            pc: self.pc,
            v: self.v@,
            i: self.i,
            stack: self.stack@,
            sp: self.sp,
            delay_timer: self.delay_timer,
            sound_timer: self.sound_timer,
            keys: self.keys@,
            display: self.display@,
            draw_flag: self.draw_flag,
            wait_for_key: self.wait_for_key,
            cycles_per_second: self.cycles_per_second,
        }
    }
}

/// A random byte from the `rand` crate's thread-local generator
/// (`rand::random::<u8>`). Nothing is claimed of the value.
#[verifier::external_body]
fn random_byte() -> (r: u8) {
    rand::random::<u8>()
}

impl ChipVIIIState {
    /// A powered-on machine.
    pub fn new() -> (s: Self)
        ensures
            s@ == initial_view(),
            s@.wf(),
    {
        let font = font_bytes();
        let mut memory = [0u8; 4096];
        let mut k: usize = 0;
        while k < 80
            invariant
                k <= 80,
                font@ == fontset(),
                forall|j: int| 0 <= j < 4096 ==> memory@[j] == if j < k { fontset()[j] } else { 0u8 },
            decreases 80 - k,
        {
            memory[k] = font[k];
            k += 1;
        }
        assert(memory@ =~= fontset() + Seq::new(4016, |j: int| 0u8));
        let s = ChipVIIIState {
            memory,
            pc: PROGRAM_START,
            v: [0u8; 16],
            i: 0,
            stack: [0u16; 16],
            sp: 0,
            delay_timer: 0,
            sound_timer: 0,
            keys: [false; 16],
            display: [false; 2048],
            draw_flag: false,
            wait_for_key: None,
            cycles_per_second: 500,
        };
        assert(s@.v =~= initial_view().v);
        assert(s@.stack =~= initial_view().stack);
        assert(s@.keys =~= initial_view().keys);
        assert(s@.display =~= initial_view().display);
        s
    }
}


/// Whether display cell `k` has been toggled once the sprite's rows before
/// `row`, and the first `col` columns of row `row`, are drawn.
#[verifier::opaque]
pub open spec fn drawn_before(mem: Seq<u8>, i: u16, vx: u8, vy: u8, n: u8, k: int, row: int, col: int) -> bool {
    &&& sprite_pixel(mem, i, vx, vy, n, k)
    &&& (sprite_row(k, vy) < row || (sprite_row(k, vy) == row && sprite_col(k, vx) < col))
}

/// Whether some lit cell of `d0` has been toggled at that point.
pub open spec fn collided_before(d0: Seq<bool>, mem: Seq<u8>, i: u16, vx: u8, vy: u8, n: u8, row: int, col: int) -> bool {
    exists|k: int| 0 <= k < 2048 && d0[k] && #[trigger] drawn_before(mem, i, vx, vy, n, k, row, col)
}

/// The display cell that sprite row `row`, column `col` lands on is the one
/// cell whose sprite row and column are `row` and `col`.
proof fn lemma_sprite_cell(vx: u8, vy: u8, row: int, col: int, k: int)
    requires
        0 <= row < 32,
        0 <= col < 64,
        0 <= k < 2048,
    ensures
        0 <= (vx + col) % 64 + ((vy + row) % 32) * 64 < 2048,
        sprite_col((vx + col) % 64 + ((vy + row) % 32) * 64, vx) == col,
        sprite_row((vx + col) % 64 + ((vy + row) % 32) * 64, vy) == row,
        (sprite_col(k, vx) == col && sprite_row(k, vy) == row) ==> k == (vx + col) % 64 + ((vy + row) % 32) * 64,
{
    let px = (vx + col) % 64;
    let py = (vy + row) % 32;
    let idx = px + py * 64;
    assert(idx % 64 == px && idx / 64 == py);
    assert(sprite_col(idx, vx) == col);
    assert(sprite_row(idx, vy) == row);
    if sprite_col(k, vx) == col && sprite_row(k, vy) == row {
        assert(k % 64 == px);
        assert(k / 64 == py);
    }
}

/// Drawing sprite row `row`, column `col` touches exactly the cell `idx`,
/// and toggles it exactly when the sprite bit is set.
proof fn lemma_draw_step(
    d0: Seq<bool>, mem: Seq<u8>, i: u16, vx: u8, vy: u8, n: u8, row: int, col: int, idx: int, bit: bool,
)
    requires
        0 <= row < n,
        n < 16,
        0 <= col < 8,
        d0.len() == 2048,
        idx == (vx + col) % 64 + ((vy + row) % 32) * 64,
        bit == (mem[i + row] & (0x80u8 >> (col as u8)) != 0),
    ensures
        0 <= idx < 2048,
        !drawn_before(mem, i, vx, vy, n, idx, row, col),
        drawn_before(mem, i, vx, vy, n, idx, row, col + 1) == bit,
        forall|k: int| 0 <= k < 2048 && k != idx ==>
            #[trigger] drawn_before(mem, i, vx, vy, n, k, row, col + 1) == drawn_before(mem, i, vx, vy, n, k, row, col),
        collided_before(d0, mem, i, vx, vy, n, row, col + 1)
            == (collided_before(d0, mem, i, vx, vy, n, row, col) || (bit && d0[idx])),
{
    reveal(drawn_before);
    lemma_sprite_cell(vx, vy, row, col, 0);
    assert forall|k: int| 0 <= k < 2048 && k != idx implies
        #[trigger] drawn_before(mem, i, vx, vy, n, k, row, col + 1) == drawn_before(mem, i, vx, vy, n, k, row, col) by {
        lemma_sprite_cell(vx, vy, row, col, k);
    }
    if collided_before(d0, mem, i, vx, vy, n, row, col + 1) {
        let k = choose|k: int| 0 <= k < 2048 && d0[k] && #[trigger] drawn_before(mem, i, vx, vy, n, k, row, col + 1);
        if k != idx {
            assert(drawn_before(mem, i, vx, vy, n, k, row, col));
        }
    }
    if collided_before(d0, mem, i, vx, vy, n, row, col) {
        let k = choose|k: int| 0 <= k < 2048 && d0[k] && #[trigger] drawn_before(mem, i, vx, vy, n, k, row, col);
        assert(k != idx);
        assert(drawn_before(mem, i, vx, vy, n, k, row, col + 1));
    }
    if bit && d0[idx] {
        assert(drawn_before(mem, i, vx, vy, n, idx, row, col + 1));
    }
}

/// Finishing a sprite row is starting the next one.
proof fn lemma_draw_next_row(d0: Seq<bool>, mem: Seq<u8>, i: u16, vx: u8, vy: u8, n: u8, row: int)
    ensures
        forall|k: int| #[trigger] drawn_before(mem, i, vx, vy, n, k, row + 1, 0) == drawn_before(mem, i, vx, vy, n, k, row, 8),
        collided_before(d0, mem, i, vx, vy, n, row + 1, 0) == collided_before(d0, mem, i, vx, vy, n, row, 8),
{
    reveal(drawn_before);
    if collided_before(d0, mem, i, vx, vy, n, row + 1, 0) {
        let k = choose|k: int| 0 <= k < 2048 && d0[k] && #[trigger] drawn_before(mem, i, vx, vy, n, k, row + 1, 0);
        assert(drawn_before(mem, i, vx, vy, n, k, row, 8));
    }
    if collided_before(d0, mem, i, vx, vy, n, row, 8) {
        let k = choose|k: int| 0 <= k < 2048 && d0[k] && #[trigger] drawn_before(mem, i, vx, vy, n, k, row, 8);
        assert(drawn_before(mem, i, vx, vy, n, k, row + 1, 0));
    }
}

/// Before anything is drawn nothing is toggled; after all `n` rows the toggled
/// cells are the sprite's pixels.
proof fn lemma_draw_ends(d0: Seq<bool>, mem: Seq<u8>, i: u16, vx: u8, vy: u8, n: u8)
    ensures
        forall|k: int| !#[trigger] drawn_before(mem, i, vx, vy, n, k, 0, 0),
        !collided_before(d0, mem, i, vx, vy, n, 0, 0),
        forall|k: int| #[trigger] drawn_before(mem, i, vx, vy, n, k, n as int, 0) == sprite_pixel(mem, i, vx, vy, n, k),
        collided_before(d0, mem, i, vx, vy, n, n as int, 0)
            == exists|k: int| 0 <= k < 2048 && d0[k] && #[trigger] sprite_pixel(mem, i, vx, vy, n, k),
{
    reveal(drawn_before);
    if collided_before(d0, mem, i, vx, vy, n, n as int, 0) {
        let k = choose|k: int| 0 <= k < 2048 && d0[k] && #[trigger] drawn_before(mem, i, vx, vy, n, k, n as int, 0);
        assert(sprite_pixel(mem, i, vx, vy, n, k));
    }
    if exists|k: int| 0 <= k < 2048 && d0[k] && #[trigger] sprite_pixel(mem, i, vx, vy, n, k) {
        let k = choose|k: int| 0 <= k < 2048 && d0[k] && #[trigger] sprite_pixel(mem, i, vx, vy, n, k);
        assert(drawn_before(mem, i, vx, vy, n, k, n as int, 0));
    }
}

/// XORs a sprite onto a 64x32 display and tells whether a lit pixel went out.
fn draw_sprite(display: &mut [bool; 2048], memory: &[u8; 4096], i: u16, vx: u8, vy: u8, n: u8) -> (collided: bool)
    requires
        n < 16,
        n == 0 || i + n <= 4096,
    ensures
        final(display)@ == Seq::new(2048, |k: int| old(display)@[k] != sprite_pixel(memory@, i, vx, vy, n, k)),
        collided == exists|k: int| 0 <= k < 2048 && old(display)@[k] && #[trigger] sprite_pixel(memory@, i, vx, vy, n, k),
{
    let ghost d0 = display@;
    let ghost mem = memory@;
    proof {
        lemma_draw_ends(d0, mem, i, vx, vy, n);
    }
    let mut collided = false;
    let mut row: u8 = 0;
    while row < n
        invariant
            row <= n,
            n < 16,
            n == 0 || i + n <= 4096,
            memory@ == mem,
            mem.len() == 4096,
            d0.len() == 2048,
            display@.len() == 2048,
            forall|k: int| 0 <= k < 2048 ==> display@[k] == (d0[k] != #[trigger] drawn_before(mem, i, vx, vy, n, k, row as int, 0)),
            collided == collided_before(d0, mem, i, vx, vy, n, row as int, 0),
        decreases n - row,
    {
        let sprite_byte = memory[(i + row as u16) as usize];
        let mut col: usize = 0;
        while col < 8
            invariant
                row < n,
                n < 16,
                col <= 8,
                memory@ == mem,
                sprite_byte == mem[i + row],
                d0.len() == 2048,
                display@.len() == 2048,
                forall|k: int| 0 <= k < 2048 ==> display@[k] == (d0[k] != #[trigger] drawn_before(mem, i, vx, vy, n, k, row as int, col as int)),
                collided == collided_before(d0, mem, i, vx, vy, n, row as int, col as int),
            decreases 8 - col,
        {
            let px = (vx as usize + col) % 64;
            let py = (vy as usize + row as usize) % 32;
            let idx = px + py * 64;
            let bit = sprite_byte & (0x80u8 >> col as u8) != 0;
            proof {
                lemma_draw_step(d0, mem, i, vx, vy, n, row as int, col as int, idx as int, bit);
            }
            if bit {
                let cur = display[idx];
                if cur {
                    collided = true;
                }
                display[idx] = !cur;
            }
            col += 1;
        }
        proof {
            lemma_draw_next_row(d0, mem, i, vx, vy, n, row as int);
        }
        row += 1;
    }
    proof {
        lemma_draw_ends(d0, mem, i, vx, vy, n);
        assert forall|k: int| 0 <= k < 2048 implies display@[k] == (d0[k] != sprite_pixel(mem, i, vx, vy, n, k)) by {
            assert(drawn_before(mem, i, vx, vy, n, k, n as int, 0) == sprite_pixel(mem, i, vx, vy, n, k));
        }
    }
    assert(display@ =~= Seq::new(2048, |k: int| d0[k] != sprite_pixel(mem, i, vx, vy, n, k)));
    collided
}


/// Copies registers `V0..=Vx` into memory starting at `base`.
fn store_registers(memory: &mut [u8; 4096], v: &[u8; 16], base: usize, x: usize)
    requires
        x < 16,
        base + x < 4096,
    ensures
        final(memory)@ == Seq::new(
            4096,
            |j: int| if base <= j <= base + x { v@[j - base] } else { old(memory)@[j] },
        ),
{
    let ghost m0 = memory@;
    let mut k: usize = 0;
    while k <= x
        invariant
            k <= x + 1,
            x < 16,
            base + x < 4096,
            v@.len() == 16,
            memory@.len() == 4096,
            m0.len() == 4096,
            forall|j: int| 0 <= j < 4096 ==> memory@[j] == if base <= j < base + k { v@[j - base] } else { m0[j] },
        decreases x + 1 - k,
    {
        memory[base + k] = v[k];
        k += 1;
    }
    assert(memory@ =~= Seq::new(4096, |j: int| if base <= j <= base + x { v@[j - base] } else { m0[j] }));
}

/// Copies memory starting at `base` into registers `V0..=Vx`.
fn load_registers(v: &mut [u8; 16], memory: &[u8; 4096], base: usize, x: usize)
    requires
        x < 16,
        base + x < 4096,
    ensures
        final(v)@ == Seq::new(16, |k: int| if k <= x { memory@[base + k] } else { old(v)@[k] }),
{
    let ghost v0 = v@;
    let mut k: usize = 0;
    while k <= x
        invariant
            k <= x + 1,
            x < 16,
            base + x < 4096,
            memory@.len() == 4096,
            v@.len() == 16,
            v0.len() == 16,
            forall|j: int| 0 <= j < 16 ==> v@[j] == if j < k { memory@[base + j] } else { v0[j] },
        decreases x + 1 - k,
    {
        v[k] = memory[base + k];
        k += 1;
    }
    assert(v@ =~= Seq::new(16, |j: int| if j <= x { memory@[base + j] } else { v0[j] }));
}

/// Instructions that move the program counter, the stack or the index register,
/// or clear the screen.
pub open spec fn is_control(op: Opcode) -> bool {
    ||| op is Cls
    ||| op is Ret
    ||| op is Jp
    ||| op is Call
    ||| op is SeByte
    ||| op is SneByte
    ||| op is SeReg
    ||| op is SneReg
    ||| op is LdI
    ||| op is JpV0
    ||| op is Skp
    ||| op is Sknp
}

/// Instructions that compute into a register: `6xkk`, `7xkk`, `8xy*`, `Cxkk`.
pub open spec fn is_arith(op: Opcode) -> bool {
    ||| op is LdByte
    ||| op is AddByte
    ||| op is LdReg
    ||| op is Or
    ||| op is And
    ||| op is Xor
    ||| op is AddReg
    ||| op is Sub
    ||| op is Shr
    ||| op is SubN
    ||| op is Shl
    ||| op is Rnd
}

/// Every instruction that runs to completion keeps the machine's shape.
pub proof fn lemma_step_keeps_shape(s: ChipView, op: Opcode, rnd: u8)
    requires
        s.wf(),
        op.well_formed(),
        can_step(s, op),
    ensures
        step_spec(s, op, rnd).wf(),
{
}

impl ChipVIIIState {
    fn step_control(&mut self, op: Opcode, rnd: u8)
        requires
            old(self)@.wf(),
            op.well_formed(),
            can_step(old(self)@, op),
            is_control(op),
        ensures
            final(self)@ == step_spec(old(self)@, op, rnd),
    {
        match op {
            Opcode::Cls => {
                self.display = [false; 2048];
                self.draw_flag = true;
                assert(self.display@ =~= Seq::new(2048, |k: int| false));
            },
            Opcode::Ret => {
                self.sp = self.sp - 1;
                self.pc = self.stack[self.sp as usize];
            },
            Opcode::Jp { addr } => {
                self.pc = addr;
            },
            Opcode::Call { addr } => {
                self.stack[self.sp as usize] = self.pc;
                self.sp = self.sp + 1;
                self.pc = addr;
            },
            Opcode::SeByte { x, byte } => {
                if self.v[x as usize] == byte {
                    self.pc = self.pc + 2;
                }
            },
            Opcode::SneByte { x, byte } => {
                if self.v[x as usize] != byte {
                    self.pc = self.pc + 2;
                }
            },
            Opcode::SeReg { x, y } => {
                if self.v[x as usize] == self.v[y as usize] {
                    self.pc = self.pc + 2;
                }
            },
            Opcode::SneReg { x, y } => {
                if self.v[x as usize] != self.v[y as usize] {
                    self.pc = self.pc + 2;
                }
            },
            Opcode::LdI { addr } => {
                self.i = addr;
            },
            Opcode::JpV0 { addr } => {
                self.pc = addr + self.v[0] as u16;
            },
            Opcode::Skp { x } => {
                if self.keys[self.v[x as usize] as usize] {
                    self.pc = self.pc + 2;
                }
            },
            Opcode::Sknp { x } => {
                if !self.keys[self.v[x as usize] as usize] {
                    self.pc = self.pc + 2;
                }
            },
            _ => {},
        }
    }

    fn step_arith(&mut self, op: Opcode, rnd: u8)
        requires
            old(self)@.wf(),
            op.well_formed(),
            is_arith(op),
        ensures
            final(self)@ == step_spec(old(self)@, op, rnd),
    {
        match op {
            Opcode::LdByte { x, byte } => {
                self.v[x as usize] = byte;
            },
            Opcode::AddByte { x, byte } => {
                let vx = self.v[x as usize];
                self.v[x as usize] = vx.wrapping_add(byte);
            },
            Opcode::LdReg { x, y } => {
                let vy = self.v[y as usize];
                self.v[x as usize] = vy;
            },
            Opcode::Or { x, y } => {
                let r = self.v[x as usize] | self.v[y as usize];
                self.v[x as usize] = r;
            },
            Opcode::And { x, y } => {
                let r = self.v[x as usize] & self.v[y as usize];
                self.v[x as usize] = r;
            },
            Opcode::Xor { x, y } => {
                let r = self.v[x as usize] ^ self.v[y as usize];
                self.v[x as usize] = r;
            },
            Opcode::AddReg { .. } | Opcode::Sub { .. } | Opcode::Shr { .. } | Opcode::SubN { .. }
            | Opcode::Shl { .. } => {
                self.step_flagged(op, rnd);
            },
            Opcode::Rnd { x, byte } => {
                self.v[x as usize] = rnd & byte;
            },
            _ => {},
        }
    }

    fn step_flagged(&mut self, op: Opcode, rnd: u8)
        requires
            old(self)@.wf(),
            op.well_formed(),
            op is AddReg || op is Sub || op is Shr || op is SubN || op is Shl,
        ensures
            final(self)@ == step_spec(old(self)@, op, rnd),
    {
        match op {
            Opcode::AddReg { x, y } => self.add_with_carry(x, y),
            Opcode::Sub { x, y } => self.sub_with_borrow(x, y),
            Opcode::SubN { x, y } => self.sub_reversed(x, y),
            Opcode::Shr { x } => self.shift_right(x),
            Opcode::Shl { x } => self.shift_left(x),
            _ => {},
        }
    }

    fn add_with_carry(&mut self, x: u8, y: u8)
        requires
            old(self)@.wf(),
            x < 16,
            y < 16,
        ensures
            final(self)@ == step_spec(old(self)@, Opcode::AddReg { x, y }, 0),
    {
        let a = self.v[x as usize];
        let b = self.v[y as usize];
        let carry = a as u16 + b as u16 > 255;
        self.v[x as usize] = a.wrapping_add(b);
        self.v[15] = if carry { 1 } else { 0 };
    }

    fn sub_with_borrow(&mut self, x: u8, y: u8)
        requires
            old(self)@.wf(),
            x < 16,
            y < 16,
        ensures
            final(self)@ == step_spec(old(self)@, Opcode::Sub { x, y }, 0),
    {
        let a = self.v[x as usize];
        let b = self.v[y as usize];
        let borrow = a < b;
        self.v[x as usize] = a.wrapping_sub(b);
        self.v[15] = if !borrow { 1 } else { 0 };
    }

    fn sub_reversed(&mut self, x: u8, y: u8)
        requires
            old(self)@.wf(),
            x < 16,
            y < 16,
        ensures
            final(self)@ == step_spec(old(self)@, Opcode::SubN { x, y }, 0),
    {
        let a = self.v[x as usize];
        let b = self.v[y as usize];
        let borrow = b < a;
        self.v[x as usize] = b.wrapping_sub(a);
        self.v[15] = if !borrow { 1 } else { 0 };
    }

    fn shift_right(&mut self, x: u8)
        requires
            old(self)@.wf(),
            x < 16,
        ensures
            final(self)@ == step_spec(old(self)@, Opcode::Shr { x }, 0),
    {
        let vx = self.v[x as usize];
        assert(vx & 1 == vx % 2) by (bit_vector);
        self.v[15] = vx & 1;
        let cur = self.v[x as usize];
        assert(cur >> 1 == cur / 2) by (bit_vector);
        self.v[x as usize] = cur >> 1;
    }

    fn shift_left(&mut self, x: u8)
        requires
            old(self)@.wf(),
            x < 16,
        ensures
            final(self)@ == step_spec(old(self)@, Opcode::Shl { x }, 0),
    {
        let vx = self.v[x as usize];
        assert((vx >> 7) & 1 == vx / 128) by (bit_vector);
        self.v[15] = (vx >> 7) & 1;
        let cur = self.v[x as usize];
        assert(cur << 1 == (cur * 2) % 256) by (bit_vector);
        self.v[x as usize] = cur << 1;
    }

    fn step_draw(&mut self, x: u8, y: u8, n: u8)
        requires
            old(self)@.wf(),
            x < 16,
            y < 16,
            n < 16,
            n == 0 || old(self)@.i + n <= 4096,
        ensures
            final(self)@ == draw_spec(old(self)@, x, y, n),
    {
        let vx = self.v[x as usize];
        let vy = self.v[y as usize];
        let collided = draw_sprite(&mut self.display, &self.memory, self.i, vx, vy, n);
        self.v[15] = if collided { 1 } else { 0 };
        self.draw_flag = true;
    }

    fn step_other(&mut self, op: Opcode, rnd: u8)
        requires
            old(self)@.wf(),
            op.well_formed(),
            can_step(old(self)@, op),
            !is_control(op),
            !is_arith(op),
            !(op is Draw),
            !(op is Unknown),
        ensures
            final(self)@ == step_spec(old(self)@, op, rnd),
    {
        match op {
            Opcode::LdXDt { x } => {
                let d = self.delay_timer;
                self.v[x as usize] = d;
            },
            Opcode::LdXK { x } => {
                self.wait_for_key = Some(x);
            },
            Opcode::LdDtX { x } => {
                self.delay_timer = self.v[x as usize];
            },
            Opcode::LdStX { x } => {
                self.sound_timer = self.v[x as usize];
            },
            Opcode::AddI { x } => {
                self.i = self.i.wrapping_add(self.v[x as usize] as u16);
            },
            Opcode::LdF { x } => {
                self.i = (self.v[x as usize] as u16) * 5;
            },
            Opcode::LdB { .. } | Opcode::LdIReg { .. } | Opcode::LdRegI { .. } => {
                self.step_memory(op, rnd);
            },
            _ => {},
        }
    }

    fn step_memory(&mut self, op: Opcode, rnd: u8)
        requires
            old(self)@.wf(),
            op.well_formed(),
            can_step(old(self)@, op),
            op is LdB || op is LdIReg || op is LdRegI,
        ensures
            final(self)@ == step_spec(old(self)@, op, rnd),
    {
        match op {
            Opcode::LdB { x } => {
                let vx = self.v[x as usize];
                let base = self.i as usize;
                self.memory[base] = vx / 100;
                self.memory[base + 1] = (vx / 10) % 10;
                self.memory[base + 2] = vx % 10;
            },
            Opcode::LdIReg { x } => {
                store_registers(&mut self.memory, &self.v, self.i as usize, x as usize);
            },
            Opcode::LdRegI { x } => {
                load_registers(&mut self.v, &self.memory, self.i as usize, x as usize);
            },
            _ => {},
        }
    }

    /// Executes one instruction whose word sits at the program counter: the
    /// counter moves past it, then the instruction acts; `rnd` is the random
    /// byte that `Cxkk` masks.
    pub fn execute(&mut self, op: Opcode, rnd: u8)
        requires
            old(self)@.wf(),
            op.well_formed(),
            can_execute(old(self)@, op),
        ensures
            final(self)@ == execute_spec(old(self)@, op, rnd),
            final(self)@.wf(),
    {
        proof {
            lemma_step_keeps_shape(advance(self@), op, rnd);
        }
        self.pc = self.pc + 2;
        if let Opcode::Draw { x, y, n } = op {
            self.step_draw(x, y, n);
        } else if let Opcode::Unknown(_) = op {
        } else if is_control_op(&op) {
            self.step_control(op, rnd);
        } else if is_arith_op(&op) {
            self.step_arith(op, rnd);
        } else {
            self.step_other(op, rnd);
        }
    }
}

fn is_control_op(op: &Opcode) -> (r: bool)
    ensures
        r == is_control(*op),
{
    match op {
        Opcode::Cls | Opcode::Ret | Opcode::Jp { .. } | Opcode::Call { .. } | Opcode::SeByte { .. }
        | Opcode::SneByte { .. } | Opcode::SeReg { .. } | Opcode::SneReg { .. } | Opcode::LdI { .. }
        | Opcode::JpV0 { .. } | Opcode::Skp { .. } | Opcode::Sknp { .. } => true,
        _ => false,
    }
}

fn is_arith_op(op: &Opcode) -> (r: bool)
    ensures
        r == is_arith(*op),
{
    match op {
        Opcode::LdByte { .. } | Opcode::AddByte { .. } | Opcode::LdReg { .. } | Opcode::Or { .. }
        | Opcode::And { .. } | Opcode::Xor { .. } | Opcode::AddReg { .. } | Opcode::Sub { .. }
        | Opcode::Shr { .. } | Opcode::SubN { .. } | Opcode::Shl { .. } | Opcode::Rnd { .. } => true,
        _ => false,
    }
}


/// Key `key` goes down or up; a key press ends a pending `Fx0A` wait by
/// storing the key's number in the waiting register.
pub open spec fn set_key_spec(s: ChipView, key: int, pressed: bool) -> ChipView {
    let s1 = ChipView { keys: s.keys.update(key, pressed), ..s };
    if pressed && s.wait_for_key is Some {
        ChipView { v: s1.v.update(s.wait_for_key->0 as int, key as u8), wait_for_key: None, ..s1 }
    } else {
        s1
    }
}

/// Memory after loading a ROM image at the program start address.
pub open spec fn loaded_memory(mem: Seq<u8>, rom: Seq<u8>) -> Seq<u8> {
    mem.take(0x200) + rom + mem.skip(0x200 + rom.len() as int)
}

/// Writes `rom` into memory at the program start address 0x200.
fn copy_rom(memory: &mut [u8; 4096], rom: &[u8])
    requires
        rom@.len() <= 4096 - 0x200,
    ensures
        final(memory)@ == loaded_memory(old(memory)@, rom@),
{
    let ghost m0 = memory@;
    let mut k: usize = 0;
    while k < rom.len()
        invariant
            k <= rom@.len(),
            rom@.len() <= 3584,
            m0.len() == 4096,
            memory@.len() == 4096,
            forall|j: int| 0 <= j < 4096 ==> memory@[j] == if 0x200 <= j < 0x200 + k { rom@[j - 0x200] } else { m0[j] },
        decreases rom@.len() - k,
    {
        memory[0x200 + k] = rom[k];
        k += 1;
    }
    assert(memory@ =~= loaded_memory(m0, rom@));
}

impl ChipVIIIState {
    /// Reads the instruction word at the program counter and decodes it.
    pub fn fetch_opcode(&self) -> (op: Opcode)
        requires
            self@.wf(),
            self@.pc + 1 < 4096,
        ensures
            op == decode_spec(self@.current_word()),
    {
        let hi = self.memory[self.pc as usize] as u16;
        let lo = self.memory[self.pc as usize + 1] as u16;
        assert(hi < 256 && lo < 256 ==> (hi << 8) | lo == hi * 256 + lo) by (bit_vector);
        let raw = (hi << 8) | lo;
        Opcode::decode(raw)
    }

    /// Whether `op`, at the program counter, runs to completion.
    pub fn can_execute_op(&self, op: Opcode) -> (r: bool)
        requires
            self@.wf(),
            op.well_formed(),
        ensures
            r == can_execute(self@, op),
    {
        if self.pc > 0xFFFD {
            return false;
        }
        let pc = self.pc + 2;
        match op {
            Opcode::Ret => self.sp > 0,
            Opcode::Call { .. } => self.sp < 16,
            Opcode::SeByte { x, byte } => !(self.v[x as usize] == byte) || pc <= 0xFFFD,
            Opcode::SneByte { x, byte } => !(self.v[x as usize] != byte) || pc <= 0xFFFD,
            Opcode::SeReg { x, y } => !(self.v[x as usize] == self.v[y as usize]) || pc <= 0xFFFD,
            Opcode::SneReg { x, y } => !(self.v[x as usize] != self.v[y as usize]) || pc <= 0xFFFD,
            Opcode::JpV0 { addr } => addr as u32 + self.v[0] as u32 <= 0xFFFF,
            Opcode::Draw { n, .. } => n == 0 || self.i as u32 + n as u32 <= 4096,
            Opcode::Skp { x } => {
                let k = self.v[x as usize];
                k < 16 && (!self.keys[k as usize] || pc <= 0xFFFD)
            },
            Opcode::Sknp { x } => {
                let k = self.v[x as usize];
                k < 16 && (self.keys[k as usize] || pc <= 0xFFFD)
            },
            Opcode::LdB { .. } => (self.i as u32) + 2 < 4096,
            Opcode::LdIReg { x } | Opcode::LdRegI { x } => (self.i as u32) + (x as u32) < 4096,
            Opcode::Unknown(_) => false,
            _ => true,
        }
    }

    /// Whether the next `cycle` runs to completion.
    pub fn can_cycle(&self) -> (r: bool)
        requires
            self@.wf(),
        ensures
            r == can_cycle(self@),
    {
        if self.pc as usize + 1 >= 4096 {
            return false;
        }
        let op = self.fetch_opcode();
        proof {
            lemma_decode_well_formed(self@.current_word());
        }
        self.can_execute_op(op)
    }

    /// Fetches, decodes and executes one instruction. `Cxkk` draws its byte
    /// from the `rand` crate, so the result is stated for some random byte.
    pub fn cycle(&mut self)
        requires
            old(self)@.wf(),
            can_cycle(old(self)@),
        ensures
            final(self)@.wf(),
            exists|r: u8| final(self)@ == cycle_spec(old(self)@, r),
    {
        let op = self.fetch_opcode();
        proof {
            lemma_decode_well_formed(self@.current_word());
        }
        let rnd = if let Opcode::Rnd { .. } = op {
            random_byte()
        } else {
            0
        };
        let ghost s0 = self@;
        self.execute(op, rnd);
        assert(self@ == cycle_spec(s0, rnd));
    }

    /// Lets `ticks` ticks of the 60 Hz timer clock pass, the count taken
    /// modulo 256; tells whether any did, so that the caller restarts its
    /// tick measurement.
    pub fn update_timers(&mut self, ticks: u32) -> (ticked: bool)
        requires
            old(self)@.wf(),
        ensures
            final(self)@ == timers_spec(old(self)@, ticks),
            final(self)@.wf(),
            ticked == (ticks > 0),
    {
        if ticks > 0 {
            let t: u8 = (ticks % 256) as u8;
            self.delay_timer = self.delay_timer.saturating_sub(t);
            if self.sound_timer > 0 {
                self.sound_timer = self.sound_timer.saturating_sub(t);
            }
            true
        } else {
            false
        }
    }

    /// Microseconds between two cycles at the machine's cycle rate.
    pub fn cycle_delay_micros(&self) -> (r: u64)
        requires
            self@.cycles_per_second > 0,
        ensures
            r == 1_000_000int / (self@.cycles_per_second as int),
    {
        1_000_000 / self.cycles_per_second as u64
    }

    /// Runs one cycle unless the machine waits for a key, then lets `ticks`
    /// timer ticks pass; tells whether any did.
    pub fn run_cycle(&mut self, ticks: u32) -> (ticked: bool)
        requires
            old(self)@.wf(),
            old(self)@.wait_for_key is None ==> can_cycle(old(self)@),
        ensures
            final(self)@.wf(),
            old(self)@.wait_for_key is None ==> exists|r: u8|
                final(self)@ == timers_spec(#[trigger] cycle_spec(old(self)@, r), ticks),
            old(self)@.wait_for_key is Some ==> final(self)@ == timers_spec(old(self)@, ticks),
            ticked == (ticks > 0),
    {
        let ghost s0 = self@;
        if self.wait_for_key.is_none() {
            self.cycle();
        }
        let ghost s1 = self@;
        let ticked = self.update_timers(ticks);
        proof {
            if s0.wait_for_key is None {
                let r = choose|r: u8| s1 == cycle_spec(s0, r);
                assert(self@ == timers_spec(cycle_spec(s0, r), ticks));
            }
        }
        ticked
    }

    /// Sets the flag that asks the front end to redraw the screen.
    pub fn set_draw_flag(&mut self, on: bool)
        ensures
            final(self)@ == (ChipView { draw_flag: on, ..old(self)@ }),
    {
        self.draw_flag = on;
    }

    /// Sets the register, if any, that waits for the next key press.
    pub fn set_wait_for_key(&mut self, wait: Option<u8>)
        ensures
            final(self)@ == (ChipView { wait_for_key: wait, ..old(self)@ }),
    {
        self.wait_for_key = wait;
    }

    /// Turns the screen pixel at index `idx` (row times 64 plus column) on or off.
    pub fn set_pixel(&mut self, idx: usize, on: bool)
        requires
            idx < 2048,
        ensures
            final(self)@ == (ChipView { display: old(self)@.display.update(idx as int, on), ..old(self)@ }),
    {
        self.display[idx] = on;
    }

    /// Sets the number of cycles the machine runs per second.
    pub fn set_cycles_per_second(&mut self, rate: u32)
        ensures
            final(self)@ == (ChipView { cycles_per_second: rate, ..old(self)@ }),
    {
        self.cycles_per_second = rate;
    }

    /// Key number `key` goes down (`pressed`) or up.
    pub fn set_key(&mut self, key: usize, pressed: bool)
        requires
            old(self)@.wf(),
            key < 16,
        ensures
            final(self)@ == set_key_spec(old(self)@, key as int, pressed),
            final(self)@.wf(),
    {
        self.keys[key] = pressed;
        if pressed {
            if let Some(x) = self.wait_for_key {
                self.v[x as usize] = key as u8;
                self.wait_for_key = None;
            }
        }
    }

    /// The lit pixels to show, as `(column, row)` pairs in row-major order;
    /// clears the draw flag.
    pub fn render(&mut self) -> (lit: Vec<(usize, usize)>)
        requires
            old(self)@.wf(),
        ensures
            lit@ == lit_pixels(old(self)@.display, 2048),
            final(self)@ == (ChipView { draw_flag: false, ..old(self)@ }),
    {
        let mut lit: Vec<(usize, usize)> = Vec::new();
        let mut idx: usize = 0;
        while idx < DISPLAY_WIDTH * DISPLAY_HEIGHT
            invariant
                idx <= 2048,
                self.display@.len() == 2048,
                lit@ == lit_pixels(self.display@, idx as int),
            decreases 2048 - idx,
        {
            if self.display[idx] {
                lit.push((idx % DISPLAY_WIDTH, idx / DISPLAY_WIDTH));
            }
            idx += 1;
        }
        self.draw_flag = false;
        lit
    }

    /// Loads a ROM image at the program start address 0x200.
    pub fn read_rom(&mut self, rom: &[u8])
        requires
            old(self)@.wf(),
            rom@.len() <= 4096 - 0x200,
        ensures
            final(self)@ == (ChipView { memory: loaded_memory(old(self)@.memory, rom@), ..old(self)@ }),
            final(self)@.wf(),
    {
        copy_rom(&mut self.memory, rom);
    }
}


/// A subroutine return undoes the call: after `2nnn` and then `00EE`, the
/// program continues at the instruction after the call, with the stack pointer
/// back where it was; only the stored return address remains on the stack.
pub proof fn lemma_return_undoes_call(s: ChipView, addr: u16, r1: u8, r2: u8)
    requires
        s.wf(),
        addr < 0x1000,
        can_execute(s, Opcode::Call { addr }),
    ensures
        can_execute(execute_spec(s, Opcode::Call { addr }, r1), Opcode::Ret),
        execute_spec(execute_spec(s, Opcode::Call { addr }, r1), Opcode::Ret, r2) == (ChipView {
            pc: (s.pc + 2) as u16,
            stack: s.stack.update(s.sp as int, (s.pc + 2) as u16),
            ..s
        }),
{
}

/// Registers stored with `Fx55` come back unchanged with `Fx65` from the same
/// address, and the second instruction leaves memory as the first left it.
pub proof fn lemma_load_gives_back_store(s: ChipView, x: u8, r1: u8, r2: u8)
    requires
        s.wf(),
        x < 16,
        can_execute(s, Opcode::LdIReg { x }),
        s.pc + 4 <= 0xFFFF,
    ensures
        can_execute(execute_spec(s, Opcode::LdIReg { x }, r1), Opcode::LdRegI { x }),
        execute_spec(execute_spec(s, Opcode::LdIReg { x }, r1), Opcode::LdRegI { x }, r2).v == s.v,
        execute_spec(execute_spec(s, Opcode::LdIReg { x }, r1), Opcode::LdRegI { x }, r2).memory
            == execute_spec(s, Opcode::LdIReg { x }, r1).memory,
{
    let s2 = execute_spec(execute_spec(s, Opcode::LdIReg { x }, r1), Opcode::LdRegI { x }, r2);
    assert(s2.v =~= s.v);
}

/// Drawing the same sprite twice leaves the display as it was: drawing is an
/// exclusive or. (The sprite's position must not sit in VF, which the first
/// draw overwrites.)
pub proof fn lemma_draw_twice_restores(s: ChipView, x: u8, y: u8, n: u8, r1: u8, r2: u8)
    requires
        s.wf(),
        x < 15,
        y < 15,
        n < 16,
        can_execute(s, Opcode::Draw { x, y, n }),
        s.pc + 4 <= 0xFFFF,
    ensures
        can_execute(execute_spec(s, Opcode::Draw { x, y, n }, r1), Opcode::Draw { x, y, n }),
        execute_spec(execute_spec(s, Opcode::Draw { x, y, n }, r1), Opcode::Draw { x, y, n }, r2).display
            == s.display,
{
    let s1 = execute_spec(s, Opcode::Draw { x, y, n }, r1);
    let s2 = execute_spec(s1, Opcode::Draw { x, y, n }, r2);
    assert(s1.v[x as int] == s.v[x as int] && s1.v[y as int] == s.v[y as int]);
    assert(s2.display =~= s.display);
}

/// `Fx33` stores the decimal digits of Vx: three digits below ten that
/// recombine to Vx.
pub proof fn lemma_bcd_digits(s: ChipView, x: u8, r: u8)
    requires
        s.wf(),
        x < 16,
        can_execute(s, Opcode::LdB { x }),
    ensures
        ({
            let m = execute_spec(s, Opcode::LdB { x }, r).memory;
            &&& m[s.i as int] < 10 && m[s.i + 1] < 10 && m[s.i + 2] < 10
            &&& 100 * m[s.i as int] + 10 * m[s.i + 1] + m[s.i + 2] == s.v[x as int]
        }),
{
}

/// Timers only count down, never below zero; fewer than 256 ticks count
/// down by the elapsed ticks exactly.
pub proof fn lemma_timers_count_down(s: ChipView, ticks: u32)
    ensures
        timers_spec(s, ticks).delay_timer <= s.delay_timer,
        timers_spec(s, ticks).sound_timer <= s.sound_timer,
        ticks < 256 ==> timers_spec(s, ticks).delay_timer
            == s.delay_timer - (if s.delay_timer <= ticks { s.delay_timer as int } else { ticks as int }),
        ticks < 256 ==> timers_spec(s, ticks).sound_timer
            == s.sound_timer - (if s.sound_timer <= ticks { s.sound_timer as int } else { ticks as int }),
        0 < ticks < 256 && s.delay_timer > 0 ==> timers_spec(s, ticks).delay_timer < s.delay_timer,
{
}

/// Adding registers, stated by what it computes: the new Vx and the carry
/// in VF together make up the exact sum Vx + Vy (`8xy4`).
pub proof fn lemma_add_meaning(s: ChipView, x: u8, y: u8, r: u8)
    requires
        s.wf(),
        x < 15,
        y < 16,
        s.pc + 2 <= 0xFFFF,
    ensures
        execute_spec(s, Opcode::AddReg { x, y }, r).v[15] <= 1,
        execute_spec(s, Opcode::AddReg { x, y }, r).v[x as int] + 256 * execute_spec(s, Opcode::AddReg { x, y }, r).v[15]
            == s.v[x as int] + s.v[y as int],
{
    let sum = s.v[x as int] + s.v[y as int];
    assert(sum < 256 ==> sum % 256 == sum);
    assert(sum >= 256 ==> sum % 256 == sum - 256);
}

/// Subtracting registers, stated by what it computes: with VF 1 when no
/// borrow happens, the new Vx is Vx - Vy (`8xy5`), or Vy - Vx (`8xy7`), plus
/// 256 when a borrow happens.
pub proof fn lemma_sub_meaning(s: ChipView, x: u8, y: u8, r: u8)
    requires
        s.wf(),
        x < 15,
        y < 16,
        s.pc + 2 <= 0xFFFF,
    ensures
        execute_spec(s, Opcode::Sub { x, y }, r).v[15] <= 1,
        execute_spec(s, Opcode::Sub { x, y }, r).v[x as int] + s.v[y as int]
            == s.v[x as int] + 256 * (1 - execute_spec(s, Opcode::Sub { x, y }, r).v[15]),
        execute_spec(s, Opcode::SubN { x, y }, r).v[15] <= 1,
        execute_spec(s, Opcode::SubN { x, y }, r).v[x as int] + s.v[x as int]
            == s.v[y as int] + 256 * (1 - execute_spec(s, Opcode::SubN { x, y }, r).v[15]),
{
    let d = s.v[x as int] - s.v[y as int];
    assert(d >= 0 ==> (d + 256) % 256 == d);
    assert(d < 0 ==> (d + 256) % 256 == d + 256);
    assert(-d >= 0 ==> (-d + 256) % 256 == -d);
    assert(-d < 0 ==> (-d + 256) % 256 == -d + 256);
}

/// `7xkk` adds the byte to Vx modulo 256 and leaves VF alone.
pub proof fn lemma_add_byte_meaning(s: ChipView, x: u8, kk: u8, r: u8)
    requires
        s.wf(),
        x < 15,
        s.pc + 2 <= 0xFFFF,
    ensures
        execute_spec(s, Opcode::AddByte { x, byte: kk }, r).v[x as int] == (s.v[x as int] + kk) % 256,
        execute_spec(s, Opcode::AddByte { x, byte: kk }, r).v[15] == s.v[15],
{
}

/// Shifting a register keeps the bit shifted out in VF: after `8xy6`,
/// twice the new Vx plus VF is the old Vx; after `8xyE`, the new Vx plus 256
/// times VF is twice the old Vx.
pub proof fn lemma_shift_meaning(s: ChipView, x: u8, r: u8)
    requires
        s.wf(),
        x < 15,
        s.pc + 2 <= 0xFFFF,
    ensures
        ({
            let t = execute_spec(s, Opcode::Shr { x }, r);
            &&& t.v[15] <= 1
            &&& 2 * t.v[x as int] + t.v[15] == s.v[x as int]
        }),
        ({
            let t = execute_spec(s, Opcode::Shl { x }, r);
            &&& t.v[15] <= 1
            &&& t.v[x as int] + 256 * t.v[15] == 2 * s.v[x as int]
        }),
{
    let vx = s.v[x as int];
    assert(((vx * 2) % 256) + 256 * (vx / 128) == 2 * vx);
}

/// Loads and bitwise operations put into Vx what they name: Vy, the byte,
/// or Vx combined bit by bit with Vy.
pub proof fn lemma_load_logic_meaning(s: ChipView, x: u8, y: u8, kk: u8, r: u8)
    requires
        s.wf(),
        x < 15,
        y < 16,
        s.pc + 2 <= 0xFFFF,
    ensures
        execute_spec(s, Opcode::LdReg { x, y }, r).v[x as int] == s.v[y as int],
        execute_spec(s, Opcode::LdByte { x, byte: kk }, r).v[x as int] == kk,
        execute_spec(s, Opcode::Or { x, y }, r).v[x as int] == s.v[x as int] | s.v[y as int],
        execute_spec(s, Opcode::And { x, y }, r).v[x as int] == s.v[x as int] & s.v[y as int],
        execute_spec(s, Opcode::Xor { x, y }, r).v[x as int] == s.v[x as int] ^ s.v[y as int],
{
}

/// The register instructions (`6xkk`, `7xkk`, `8xy*`) move on to the next
/// instruction and change no register but Vx and VF.
pub proof fn lemma_register_ops_frame(s: ChipView, x: u8, y: u8, kk: u8, r: u8)
    requires
        s.wf(),
        x < 16,
        y < 16,
        s.pc + 2 <= 0xFFFF,
    ensures
        forall|op: Opcode| #![trigger execute_spec(s, op, r)]
            (op == (Opcode::AddReg { x, y }) || op == (Opcode::Sub { x, y }) || op == (Opcode::SubN { x, y })
                || op == (Opcode::Shr { x }) || op == (Opcode::Shl { x }) || op == (Opcode::AddByte { x, byte: kk })
                || op == (Opcode::LdReg { x, y }) || op == (Opcode::LdByte { x, byte: kk })
                || op == (Opcode::Or { x, y }) || op == (Opcode::And { x, y }) || op == (Opcode::Xor { x, y })) ==> {
                &&& execute_spec(s, op, r).pc == s.pc + 2
                &&& execute_spec(s, op, r).v.len() == 16
                &&& forall|k: int| 0 <= k < 15 && k != x ==> #[trigger] execute_spec(s, op, r).v[k] == s.v[k]
                &&& execute_spec(s, op, r) == (ChipView { v: execute_spec(s, op, r).v, pc: execute_spec(s, op, r).pc, ..s })
            },
{
}

/// The skip instructions skip exactly when their condition holds: `3xkk`
/// when Vx equals the byte, `4xkk` when it differs, `5xy0` when Vx and Vy
/// hold equal values, `9xy0` when they differ, `Ex9E` when the key numbered
/// by Vx is down, `ExA1` when it is up. Nothing else changes.
pub proof fn lemma_skip_meaning(s: ChipView, x: u8, y: u8, kk: u8, r: u8)
    requires
        s.wf(),
        x < 16,
        y < 16,
        s.pc + 4 <= 0xFFFF,
    ensures
        execute_spec(s, Opcode::SeByte { x, byte: kk }, r).pc == s.pc + (if s.v[x as int] == kk { 4int } else { 2 }),
        execute_spec(s, Opcode::SneByte { x, byte: kk }, r).pc == s.pc + (if s.v[x as int] != kk { 4int } else { 2 }),
        execute_spec(s, Opcode::SeReg { x, y }, r).pc == s.pc + (if s.v[x as int] == s.v[y as int] { 4int } else { 2 }),
        execute_spec(s, Opcode::SneReg { x, y }, r).pc == s.pc + (if s.v[x as int] != s.v[y as int] { 4int } else { 2 }),
        s.v[x as int] < 16 ==> execute_spec(s, Opcode::Skp { x }, r).pc
            == s.pc + (if s.keys[s.v[x as int] as int] { 4int } else { 2 }),
        s.v[x as int] < 16 ==> execute_spec(s, Opcode::Sknp { x }, r).pc
            == s.pc + (if s.keys[s.v[x as int] as int] { 2int } else { 4 }),
        forall|op: Opcode| #![trigger execute_spec(s, op, r)]
            (op == (Opcode::SeByte { x, byte: kk }) || op == (Opcode::SneByte { x, byte: kk })
                || op == (Opcode::SeReg { x, y }) || op == (Opcode::SneReg { x, y })
                || op == (Opcode::Skp { x }) || op == (Opcode::Sknp { x })) ==>
                execute_spec(s, op, r) == (ChipView { pc: execute_spec(s, op, r).pc, ..s }),
{
}

/// Pressing or releasing a key leaves it down exactly when it was pressed
/// and every other key as it was; a press ends a pending key wait (`Fx0A`) by
/// putting the key number in the waiting register, and changes nothing else.
/// Pressing and then releasing a key leaves it up.
pub proof fn lemma_key_meaning(s: ChipView, key: int, pressed: bool)
    requires
        s.wf(),
        0 <= key < 16,
    ensures
        ({
            let t = set_key_spec(s, key, pressed);
            &&& t.keys.len() == 16
            &&& t.keys[key] == pressed
            &&& forall|k: int| 0 <= k < 16 && k != key ==> #[trigger] t.keys[k] == s.keys[k]
            &&& !(pressed && s.wait_for_key is Some) ==> t == (ChipView { keys: t.keys, ..s })
            &&& pressed && s.wait_for_key is Some ==> {
                &&& t.v[s.wait_for_key->0 as int] == key
                &&& t.wait_for_key is None
                &&& t == (ChipView { keys: t.keys, v: t.v, wait_for_key: None, ..s })
                &&& forall|k: int| 0 <= k < 16 && k != s.wait_for_key->0 ==> #[trigger] t.v[k] == s.v[k]
            }
        }),
        !set_key_spec(set_key_spec(s, key, true), key, false).keys[key],
{
}

/// Jumps, calls and the index register: `1nnn` goes to `nnn`, `Bnnn` to
/// `nnn` plus V0, `2nnn` pushes the address of the next instruction and goes
/// to `nnn`, `00E0` clears every pixel, `Annn` sets I to `nnn`, `Fx1E` adds
/// Vx to I (modulo 65536).
pub proof fn lemma_flow_meaning(s: ChipView, addr: u16, x: u8, r: u8)
    requires
        s.wf(),
        x < 16,
        s.pc + 2 <= 0xFFFF,
        addr + s.v[0] <= 0xFFFF,
        s.sp < 16,
    ensures
        execute_spec(s, Opcode::Jp { addr }, r).pc == addr,
        execute_spec(s, Opcode::JpV0 { addr }, r).pc == addr + s.v[0],
        execute_spec(s, Opcode::Call { addr }, r).pc == addr,
        execute_spec(s, Opcode::Call { addr }, r).sp == s.sp + 1,
        execute_spec(s, Opcode::Call { addr }, r).stack[s.sp as int] == s.pc + 2,
        forall|k: int| 0 <= k < 2048 ==> !#[trigger] execute_spec(s, Opcode::Cls, r).display[k],
        execute_spec(s, Opcode::Cls, r).display.len() == 2048,
        execute_spec(s, Opcode::LdI { addr }, r).i == addr,
        execute_spec(s, Opcode::AddI { x }, r).i == (s.i + s.v[x as int]) % 0x10000,
{
}

/// The timer and key-wait instructions: `Fx07` reads the delay timer into Vx,
/// `Fx15` and `Fx18` set the delay and sound timers from Vx, `Fx0A` makes the
/// machine wait for a key to put in Vx; each moves on to the next instruction.
pub proof fn lemma_timer_register_meaning(s: ChipView, x: u8, r: u8)
    requires
        s.wf(),
        x < 16,
        s.pc + 2 <= 0xFFFF,
    ensures
        execute_spec(s, Opcode::LdXDt { x }, r).v[x as int] == s.delay_timer,
        execute_spec(s, Opcode::LdDtX { x }, r).delay_timer == s.v[x as int],
        execute_spec(s, Opcode::LdStX { x }, r).sound_timer == s.v[x as int],
        execute_spec(s, Opcode::LdXK { x }, r).wait_for_key == Some(x),
        execute_spec(s, Opcode::LdXDt { x }, r).pc == s.pc + 2,
        execute_spec(s, Opcode::LdDtX { x }, r).pc == s.pc + 2,
        execute_spec(s, Opcode::LdStX { x }, r).pc == s.pc + 2,
        execute_spec(s, Opcode::LdXK { x }, r).pc == s.pc + 2,
{
}

/// `Fx29` points the index register at the font glyph of the low digit of Vx,
/// which a freshly started machine holds at five bytes per digit.
pub proof fn lemma_font_glyph_address(s: ChipView, x: u8, r: u8)
    requires
        s.wf(),
        x < 16,
        s.v[x as int] < 16,
        can_execute(s, Opcode::LdF { x }),
    ensures
        execute_spec(s, Opcode::LdF { x }, r).i == 5 * s.v[x as int],
        execute_spec(s, Opcode::LdF { x }, r).i + 5 <= 80,
        forall|row: int| 0 <= row < 5 ==> #[trigger] initial_view().memory[execute_spec(s, Opcode::LdF { x }, r).i + row]
            == fontset()[5 * s.v[x as int] + row],
{
}


impl ChipVIIIState {
    /// The program counter.
    pub fn pc(&self) -> (r: u16)
        ensures
            r == self@.pc,
    {
        self.pc
    }

    /// The index register `I`.
    pub fn index_register(&self) -> (r: u16)
        ensures
            r == self@.i,
    {
        self.i
    }

    /// Register `Vx`.
    pub fn register(&self, x: usize) -> (r: u8)
        requires
            self@.wf(),
            x < 16,
        ensures
            r == self@.v[x as int],
    {
        self.v[x]
    }

    /// The stack pointer: how many return addresses the stack holds.
    pub fn stack_pointer(&self) -> (r: u8)
        ensures
            r == self@.sp,
    {
        self.sp
    }

    /// Stack entry `k`.
    pub fn stack_entry(&self, k: usize) -> (r: u16)
        requires
            self@.wf(),
            k < 16,
        ensures
            r == self@.stack[k as int],
    {
        self.stack[k]
    }

    /// The delay timer.
    pub fn delay_timer(&self) -> (r: u8)
        ensures
            r == self@.delay_timer,
    {
        self.delay_timer
    }

    /// The sound timer.
    pub fn sound_timer(&self) -> (r: u8)
        ensures
            r == self@.sound_timer,
    {
        self.sound_timer
    }

    /// The memory byte at `addr`.
    pub fn memory_byte(&self, addr: usize) -> (r: u8)
        requires
            self@.wf(),
            addr < 4096,
        ensures
            r == self@.memory[addr as int],
    {
        self.memory[addr]
    }
}

} // verus!
