use vstd::prelude::*;
use vstd::string::*;
use crate::chipviii::{ChipView, Opcode, decode_spec};
use crate::text::{
    Separator, pieces, non_empty, views, parse_number, parse_register, capitalized, source_lines,
    chars_equal, to_uppercase, parse_number_chars, register_operand_readable, parse_radix_from, is_white_space,
    lemma_pieces_not_empty, separates, clean_line, before_comment, lemma_trim_first, split,
    keep_non_empty, copy_chars, chars_of, clean_lines, is_ascii_text, ascii_capitals, lemma_number_case,
    lemma_number_start, ascii_capital,
};

verus! {

/// A line that defines a label: it ends with `:`.
pub open spec fn is_label(l: Seq<char>) -> bool {
    l.len() > 0 && l.last() == ':'
}

/// The label a label line defines: the line without its `:`.
pub open spec fn label_name(l: Seq<char>) -> Seq<char> {
    l.drop_last()
}

/// The words of a line, split at white space.
pub open spec fn words(l: Seq<char>) -> Seq<Seq<char>> {
    non_empty(pieces(l, Separator::WhiteSpace))
}

/// The mnemonic and operands of an instruction line, split at spaces and commas.
pub open spec fn operands(l: Seq<char>) -> Seq<Seq<char>> {
    non_empty(pieces(l, Separator::SpaceOrComma))
}

pub open spec fn kw_db() -> Seq<char> { seq!['D', 'B'] }
pub open spec fn kw_cls() -> Seq<char> { seq!['C', 'L', 'S'] }
pub open spec fn kw_ret() -> Seq<char> { seq!['R', 'E', 'T'] }
pub open spec fn kw_jp() -> Seq<char> { seq!['J', 'P'] }
pub open spec fn kw_ld() -> Seq<char> { seq!['L', 'D'] }
pub open spec fn kw_add() -> Seq<char> { seq!['A', 'D', 'D'] }
pub open spec fn kw_drw() -> Seq<char> { seq!['D', 'R', 'W'] }
pub open spec fn kw_i() -> Seq<char> { seq!['I'] }

/// How many bytes the first pass reserves for a line that is not a label:
/// one for `DB` (judged by the line's first white-space separated word), two
/// for anything else.
pub open spec fn line_size(l: Seq<char>) -> int {
    if capitalized(words(l)[0]) == kw_db() { 1 } else { 2 }
}

/// The address after `lines` when they are laid out from 0x200.
pub open spec fn address_after(lines: Seq<Seq<char>>) -> int
    decreases lines.len(),
{
    if lines.len() == 0 {
        0x200
    } else {
        let p = address_after(lines.drop_last());
        if is_label(lines.last()) { p } else { p + line_size(lines.last()) }
    }
}

/// The label table after the first pass over `lines`: each label gets the
/// address of what follows it; a label defined again takes its latest address.
pub open spec fn labels_after(labels: Map<Seq<char>, u16>, lines: Seq<Seq<char>>) -> Map<Seq<char>, u16>
    decreases lines.len(),
{
    if lines.len() == 0 {
        labels
    } else {
        let m = labels_after(labels, lines.drop_last());
        if is_label(lines.last()) {
            m.insert(label_name(lines.last()), address_after(lines.drop_last()) as u16)
        } else {
            m
        }
    }
}

/// An address operand: a label's address, else a number.
pub open spec fn resolve_spec(labels: Map<Seq<char>, u16>, s: Seq<char>) -> Result<u16, Seq<char>> {
    if labels.contains_key(s) {
        Ok(labels[s])
    } else {
        number_spec(s)
    }
}

/// A number operand.
pub open spec fn number_spec(s: Seq<char>) -> Result<u16, Seq<char>> {
    match parse_number(s) {
        Some(v) => Ok(v),
        None => Err("Num err"@),
    }
}

/// A byte operand: a number cut to its low eight bits.
pub open spec fn byte_spec(s: Seq<char>) -> Result<u8, Seq<char>> {
    match number_spec(s) {
        Ok(v) => Ok(v as u8),
        Err(e) => Err(e),
    }
}

/// A register operand; `None` where assembly aborts.
pub open spec fn register_spec(s: Seq<char>) -> Option<Result<u16, Seq<char>>> {
    match parse_register(s) {
        None => None,
        Some(Some(v)) => Some(Ok(v)),
        Some(None) => Some(Err("Reg err"@)),
    }
}

pub open spec fn jp_word(addr: u16) -> u16 {
    0x1000u16 | (addr & 0x0FFFu16)
}

pub open spec fn ld_i_word(addr: u16) -> u16 {
    0xA000u16 | (addr & 0x0FFFu16)
}

pub open spec fn ld_reg_word(x: u16, y: u16) -> u16 {
    0x8000u16 | (x << 8u16) | (y << 4u16)
}

pub open spec fn ld_byte_word(x: u16, b: u8) -> u16 {
    0x6000u16 | (x << 8u16) | (b as u16)
}

pub open spec fn add_byte_word(x: u16, b: u8) -> u16 {
    0x7000u16 | (x << 8u16) | (b as u16)
}

pub open spec fn draw_word(x: u16, y: u16, n: u16) -> u16 {
    0xD000u16 | (x << 8u16) | (y << 4u16) | (n & 0x000Fu16)
}

/// The word for the instruction `parts` (mnemonic, then operands):
/// `Some(Ok(word))`, `Some(Err(message))`, or `None` where assembly aborts
/// the program (an operand is missing, or a register operand starts with a
/// character of more than one byte). Operands are read left to right and the
/// first failure counts.
pub open spec fn encode_spec(labels: Map<Seq<char>, u16>, parts: Seq<Seq<char>>) -> Option<Result<u16, Seq<char>>> {
    let m = capitalized(parts[0]);
    if m == kw_cls() {
        Some(Ok(0x00E0u16))
    } else if m == kw_ret() {
        Some(Ok(0x00EEu16))
    } else if m == kw_jp() {
        if parts.len() < 2 {
            None
        } else {
            match resolve_spec(labels, parts[1]) {
                Ok(a) => Some(Ok(jp_word(a))),
                Err(e) => Some(Err(e)),
            }
        }
    } else if m == kw_ld() {
        if parts.len() < 2 {
            None
        } else {
            let dest = capitalized(parts[1]);
            if dest == kw_i() {
                if parts.len() < 3 {
                    None
                } else {
                    match resolve_spec(labels, parts[2]) {
                        Ok(a) => Some(Ok(ld_i_word(a))),
                        Err(e) => Some(Err(e)),
                    }
                }
            } else if dest.len() > 0 && dest[0] == 'V' {
                match register_spec(dest) {
                    None => None,
                    Some(Err(e)) => Some(Err(e)),
                    Some(Ok(x)) => if parts.len() < 3 {
                        None
                    } else {
                        let src = capitalized(parts[2]);
                        if src.len() > 0 && src[0] == 'V' {
                            match register_spec(parts[2]) {
                                None => None,
                                Some(Err(e)) => Some(Err(e)),
                                Some(Ok(y)) => Some(Ok(ld_reg_word(x, y))),
                            }
                        } else {
                            match byte_spec(parts[2]) {
                                Ok(b) => Some(Ok(ld_byte_word(x, b))),
                                Err(e) => Some(Err(e)),
                            }
                        }
                    },
                }
            } else {
                Some(Err("Invalid LD"@))
            }
        }
    } else if m == kw_add() {
        if parts.len() < 2 {
            None
        } else {
            match register_spec(parts[1]) {
                None => None,
                Some(Err(e)) => Some(Err(e)),
                Some(Ok(x)) => if parts.len() < 3 {
                    None
                } else {
                    match byte_spec(parts[2]) {
                        Ok(b) => Some(Ok(add_byte_word(x, b))),
                        Err(e) => Some(Err(e)),
                    }
                },
            }
        }
    } else if m == kw_drw() {
        if parts.len() < 2 {
            None
        } else {
            match register_spec(parts[1]) {
                None => None,
                Some(Err(e)) => Some(Err(e)),
                Some(Ok(x)) => if parts.len() < 3 {
                    None
                } else {
                    match register_spec(parts[2]) {
                        None => None,
                        Some(Err(e)) => Some(Err(e)),
                        Some(Ok(y)) => if parts.len() < 4 {
                            None
                        } else {
                            match byte_spec(parts[3]) {
                                Ok(n) => Some(Ok(draw_word(x, y, n as u16))),
                                Err(e) => Some(Err(e)),
                            }
                        },
                    }
                },
            }
        }
    } else {
        Some(Err("Unknown: "@ + m))
    }
}

/// The second pass on one line, with `bin` the bytes so far: a label emits
/// nothing; `DB n` emits the byte; an instruction first pads `bin` to an even
/// length with a zero, then emits its word high byte first. `None` where
/// assembly aborts.
pub open spec fn emit_line(labels: Map<Seq<char>, u16>, bin: Seq<u8>, l: Seq<char>) -> Option<Result<Seq<u8>, Seq<char>>> {
    if is_label(l) {
        Some(Ok(bin))
    } else {
        let parts = operands(l);
        if parts.len() == 0 {
            None
        } else if capitalized(parts[0]) == kw_db() {
            if parts.len() < 2 {
                None
            } else {
                match byte_spec(parts[1]) {
                    Ok(b) => Some(Ok(bin.push(b))),
                    Err(e) => Some(Err(e)),
                }
            }
        } else {
            let padded = if bin.len() % 2 != 0 { bin.push(0u8) } else { bin };
            match encode_spec(labels, parts) {
                None => None,
                Some(Err(e)) => Some(Err(e)),
                Some(Ok(w)) => Some(Ok(padded.push((w / 256) as u8).push((w % 256) as u8))),
            }
        }
    }
}

/// The second pass over `lines`: the first failure ends it.
pub open spec fn emit_lines(labels: Map<Seq<char>, u16>, lines: Seq<Seq<char>>) -> Option<Result<Seq<u8>, Seq<char>>>
    decreases lines.len(),
{
    if lines.len() == 0 {
        Some(Ok(Seq::<u8>::empty()))
    } else {
        match emit_lines(labels, lines.drop_last()) {
            Some(Ok(bin)) => emit_line(labels, bin, lines.last()),
            other => other,
        }
    }
}

/// What assembling `src` with the label table `labels` gives: the label table
/// afterwards, and `Some(Ok(bytes))`, `Some(Err(message))`, or `None` where
/// assembly aborts (the program passes address 0xFFFF in the first pass, or a
/// line of the second pass aborts). The table is left as it was when the first
/// pass aborts.
pub open spec fn assemble_spec(labels: Map<Seq<char>, u16>, src: Seq<char>) -> (Map<Seq<char>, u16>, Option<Result<Seq<u8>, Seq<char>>>) {
    let lines = source_lines(src);
    if address_after(lines) > 0xFFFF {
        (labels, None)
    } else {
        let table = labels_after(labels, lines);
        (table, emit_lines(table, lines))
    }
}

pub open spec fn err_view<T>(r: Result<T, String>) -> Result<T, Seq<char>> {
    match r {
        Ok(v) => Ok(v),
        Err(e) => Err(e@),
    }
}

pub open spec fn bytes_view(r: Result<Vec<u8>, String>) -> Result<Seq<u8>, Seq<char>> {
    match r {
        Ok(v) => Ok(v@),
        Err(e) => Err(e@),
    }
}


/// An assembler for CHIP-8 programs. It remembers the labels of every
/// program it has assembled.
pub struct Assembler {
    names: Vec<Vec<char>>,
    addrs: Vec<u16>,
}

impl View for Assembler {
    type V = Map<Seq<char>, u16>;

    /// The label table: each known label and its address.
    closed spec fn view(&self) -> Map<Seq<char>, u16> {
        Map::new(
            |k: Seq<char>| exists|j: int| 0 <= j < self.names@.len() && #[trigger] self.names@[j]@ == k,
            |k: Seq<char>| self.addrs@[choose|j: int| 0 <= j < self.names@.len() && #[trigger] self.names@[j]@ == k],
        )
    }
}

impl Assembler {
    /// The table's shape, kept at all times: one address per name, no name twice.
    #[verifier::type_invariant]
    spec fn wf(&self) -> bool {
        &&& self.names@.len() == self.addrs@.len()
        &&& forall|a: int, b: int|
            0 <= a < b < self.names@.len() ==> #[trigger] self.names@[a]@ != #[trigger] self.names@[b]@
    }

    proof fn lemma_entry(&self, j: int)
        requires
            self.wf(),
            0 <= j < self.names@.len(),
        ensures
            self@.contains_key(self.names@[j]@),
            self@[self.names@[j]@] == self.addrs@[j],
    {
        let k = self.names@[j]@;
        assert(self@.dom().contains(k));
        let c = choose|c: int| 0 <= c < self.names@.len() && #[trigger] self.names@[c]@ == k;
        if c < j {
            assert(self.names@[c]@ != self.names@[j]@);
        } else if c > j {
            assert(self.names@[j]@ != self.names@[c]@);
        }
    }

    /// An assembler that knows no labels.
    pub fn new() -> (a: Self)
        ensures
            a@ == Map::<Seq<char>, u16>::empty(),
    {
        let a = Assembler { names: Vec::new(), addrs: Vec::new() };
        assert(a@ =~= Map::<Seq<char>, u16>::empty());
        a
    }

    fn position(&self, name: &Vec<char>) -> (r: Option<usize>)
        requires
            self.wf(),
        ensures
            r matches Some(j) ==> j < self.names@.len() && self.names@[j as int]@ == name@,
            r is None ==> !self@.contains_key(name@),
    {
        let mut j: usize = 0;
        while j < self.names.len()
            invariant
                j <= self.names@.len(),
                forall|c: int| 0 <= c < j ==> self.names@[c]@ != name@,
            decreases self.names@.len() - j,
        {
            if chars_equal(&self.names[j], name) {
                return Some(j);
            }
            j += 1;
        }
        None
    }

    /// The address of a label, if it is known.
    fn lookup(&self, name: &Vec<char>) -> (r: Option<u16>)
        requires
            self.wf(),
        ensures
            r == (if self@.contains_key(name@) { Some(self@[name@]) } else { None::<u16> }),
    {
        match self.position(name) {
            Some(j) => {
                proof {
                    self.lemma_entry(j as int);
                }
                Some(self.addrs[j])
            },
            None => None,
        }
    }

    /// Records `name` at `addr`, replacing an earlier address of the same name.
    fn define(&mut self, name: Vec<char>, addr: u16)
        requires
            old(self).wf(),
        ensures
            final(self).wf(),
            final(self)@ == old(self)@.insert(name@, addr),
    {
        proof {
            use_type_invariant(&*self);
        }
        let ghost before = self@;
        let pos = self.position(&name);
        let mut table = Assembler::new();
        std::mem::swap(self, &mut table);
        let Assembler { mut names, mut addrs } = table;
        match pos {
            Some(j) => {
                addrs.set(j, addr);
                *self = Assembler { names, addrs };
                proof {
                    assert forall|k: Seq<char>| #![auto] self@.contains_key(k) == before.insert(name@, addr).contains_key(k) by {
                        if self@.contains_key(k) {
                            let c = choose|c: int| 0 <= c < self.names@.len() && #[trigger] self.names@[c]@ == k;
                            old(self).lemma_entry(c);
                        }
                        if before.contains_key(k) {
                            let c = choose|c: int| 0 <= c < old(self).names@.len() && #[trigger] old(self).names@[c]@ == k;
                            self.lemma_entry(c);
                        }
                        if k == name@ {
                            self.lemma_entry(j as int);
                        }
                    }
                    assert forall|k: Seq<char>| #[trigger] self@.contains_key(k) implies self@[k] == before.insert(name@, addr)[k] by {
                        let c = choose|c: int| 0 <= c < self.names@.len() && #[trigger] self.names@[c]@ == k;
                        self.lemma_entry(c);
                        old(self).lemma_entry(c);
                    }
                    assert(self@ =~= before.insert(name@, addr));
                }
            },
            None => {
                let ghost n = name@;
                names.push(name);
                addrs.push(addr);
                proof {
                    assert forall|a: int, b: int| 0 <= a < b < names@.len() implies #[trigger] names@[a]@
                        != #[trigger] names@[b]@ by {
                        if b == names@.len() - 1 {
                            old(self).lemma_entry(a);
                        }
                    }
                }
                *self = Assembler { names, addrs };
                proof {
                    let last = self.names@.len() - 1;
                    assert forall|k: Seq<char>| #![auto] self@.contains_key(k) == before.insert(n, addr).contains_key(k) by {
                        if self@.contains_key(k) {
                            let c = choose|c: int| 0 <= c < self.names@.len() && #[trigger] self.names@[c]@ == k;
                            if c < last {
                                old(self).lemma_entry(c);
                            }
                        }
                        if before.contains_key(k) {
                            let c = choose|c: int| 0 <= c < old(self).names@.len() && #[trigger] old(self).names@[c]@ == k;
                            assert(self.names@[c]@ == k);
                        }
                        if k == n {
                            assert(self.names@[last]@ == k);
                        }
                    }
                    assert forall|k: Seq<char>| #[trigger] self@.contains_key(k) implies self@[k] == before.insert(n, addr)[k] by {
                        let c = choose|c: int| 0 <= c < self.names@.len() && #[trigger] self.names@[c]@ == k;
                        self.lemma_entry(c);
                        if c < last {
                            old(self).lemma_entry(c);
                        }
                    }
                    assert(self@ =~= before.insert(n, addr));
                }
            },
        }
    }
}


pub open spec fn opt_err_view<T>(r: Option<Result<T, String>>) -> Option<Result<T, Seq<char>>> {
    match r {
        None => None,
        Some(Ok(v)) => Some(Ok(v)),
        Some(Err(e)) => Some(Err(e@)),
    }
}

fn keyword_db() -> (r: Vec<char>)
    ensures
        r@ == kw_db(),
{
    let r = vec!['D', 'B'];
    assert(r@ =~= kw_db());
    r
}

fn keyword_cls() -> (r: Vec<char>)
    ensures
        r@ == kw_cls(),
{
    let r = vec!['C', 'L', 'S'];
    assert(r@ =~= kw_cls());
    r
}

fn keyword_ret() -> (r: Vec<char>)
    ensures
        r@ == kw_ret(),
{
    let r = vec!['R', 'E', 'T'];
    assert(r@ =~= kw_ret());
    r
}

fn keyword_jp() -> (r: Vec<char>)
    ensures
        r@ == kw_jp(),
{
    let r = vec!['J', 'P'];
    assert(r@ =~= kw_jp());
    r
}

fn keyword_ld() -> (r: Vec<char>)
    ensures
        r@ == kw_ld(),
{
    let r = vec!['L', 'D'];
    assert(r@ =~= kw_ld());
    r
}

fn keyword_add() -> (r: Vec<char>)
    ensures
        r@ == kw_add(),
{
    let r = vec!['A', 'D', 'D'];
    assert(r@ =~= kw_add());
    r
}

fn keyword_drw() -> (r: Vec<char>)
    ensures
        r@ == kw_drw(),
{
    let r = vec!['D', 'R', 'W'];
    assert(r@ =~= kw_drw());
    r
}

fn keyword_i() -> (r: Vec<char>)
    ensures
        r@ == kw_i(),
{
    let r = vec!['I'];
    assert(r@ =~= kw_i());
    r
}

fn num_err() -> (e: String)
    ensures
        e@ == "Num err"@,
{
    String::from_str("Num err")
}

fn reg_err() -> (e: String)
    ensures
        e@ == "Reg err"@,
{
    String::from_str("Reg err")
}

/// The text of `s` as a `String` (`String::from_iter` over the characters).
#[verifier::external_body]
fn chars_to_string(s: &Vec<char>) -> (r: String)
    ensures
        r@ == s@,
{
    s.iter().collect::<String>()
}

impl Assembler {
    /// A number operand: hexadecimal after `0x`, decimal otherwise.
    fn parse_u16(&self, s: &Vec<char>) -> (r: Result<u16, String>)
        ensures
            err_view(r) == number_spec(s@),
    {
        match parse_number_chars(s) {
            Some(v) => Ok(v),
            None => Err(num_err()),
        }
    }

    /// A byte operand: a number cut to its low eight bits.
    fn parse_u8(&self, s: &Vec<char>) -> (r: Result<u8, String>)
        ensures
            err_view(r) == byte_spec(s@),
    {
        match self.parse_u16(s) {
            Ok(v) => Ok(v as u8),
            Err(e) => Err(e),
        }
    }

    /// A register operand: the hexadecimal number after its first character.
    fn parse_reg(&self, s: &Vec<char>) -> (r: Result<u16, String>)
        requires
            parse_register(s@) is Some,
        ensures
            Some(err_view(r)) == register_spec(s@),
    {
        match parse_radix_from(s, 1, 16) {
            Some(v) => Ok(v),
            None => Err(reg_err()),
        }
    }

    /// An address operand: a known label's address, else a number.
    fn resolve_addr(&self, s: &Vec<char>) -> (r: Result<u16, String>)
        requires
            self.wf(),
        ensures
            err_view(r) == resolve_spec(self@, s@),
    {
        match self.lookup(s) {
            Some(a) => Ok(a),
            None => self.parse_u16(s),
        }
    }

    /// The word of one instruction; `None` where assembly aborts.
    fn encode_instruction(&self, parts: &Vec<Vec<char>>) -> (r: Option<Result<u16, String>>)
        requires
            self.wf(),
            parts@.len() >= 1,
        ensures
            opt_err_view(r) == encode_spec(self@, views(parts@)),
    {
        let ghost ps = views(parts@);
        assert(ps[0] == parts@[0]@);
        let m = to_uppercase(&parts[0]);
        if chars_equal(&m, &keyword_cls()) {
            Some(Ok(0x00E0))
        } else if chars_equal(&m, &keyword_ret()) {
            Some(Ok(0x00EE))
        } else if chars_equal(&m, &keyword_jp()) {
            if parts.len() < 2 {
                return None;
            }
            assert(ps[1] == parts@[1]@);
            match self.resolve_addr(&parts[1]) {
                Ok(a) => Some(Ok(0x1000 | (a & 0x0FFF))),
                Err(e) => Some(Err(e)),
            }
        } else if chars_equal(&m, &keyword_ld()) {
            if parts.len() < 2 {
                return None;
            }
            assert(ps[1] == parts@[1]@);
            let dest = to_uppercase(&parts[1]);
            if chars_equal(&dest, &keyword_i()) {
                if parts.len() < 3 {
                    return None;
                }
                assert(ps[2] == parts@[2]@);
                match self.resolve_addr(&parts[2]) {
                    Ok(a) => Some(Ok(0xA000 | (a & 0x0FFF))),
                    Err(e) => Some(Err(e)),
                }
            } else if dest.len() > 0 && dest[0] == 'V' {
                match self.parse_reg(&dest) {
                    Err(e) => Some(Err(e)),
                    Ok(x) => {
                        if parts.len() < 3 {
                            return None;
                        }
                        assert(ps[2] == parts@[2]@);
                        let src = to_uppercase(&parts[2]);
                        if src.len() > 0 && src[0] == 'V' {
                            if !register_operand_readable(&parts[2]) {
                                return None;
                            }
                            match self.parse_reg(&parts[2]) {
                                Err(e) => Some(Err(e)),
                                Ok(y) => Some(Ok(0x8000 | (x << 8) | (y << 4))),
                            }
                        } else {
                            match self.parse_u8(&parts[2]) {
                                Ok(b) => Some(Ok(0x6000 | (x << 8) | b as u16)),
                                Err(e) => Some(Err(e)),
                            }
                        }
                    },
                }
            } else {
                Some(Err(String::from_str("Invalid LD")))
            }
        } else if chars_equal(&m, &keyword_add()) {
            if parts.len() < 2 {
                return None;
            }
            assert(ps[1] == parts@[1]@);
            if !register_operand_readable(&parts[1]) {
                return None;
            }
            match self.parse_reg(&parts[1]) {
                Err(e) => Some(Err(e)),
                Ok(x) => {
                    if parts.len() < 3 {
                        return None;
                    }
                    assert(ps[2] == parts@[2]@);
                    match self.parse_u8(&parts[2]) {
                        Ok(b) => Some(Ok(0x7000 | (x << 8) | b as u16)),
                        Err(e) => Some(Err(e)),
                    }
                },
            }
        } else if chars_equal(&m, &keyword_drw()) {
            if parts.len() < 2 {
                return None;
            }
            assert(ps[1] == parts@[1]@);
            if !register_operand_readable(&parts[1]) {
                return None;
            }
            match self.parse_reg(&parts[1]) {
                Err(e) => Some(Err(e)),
                Ok(x) => {
                    if parts.len() < 3 {
                        return None;
                    }
                    assert(ps[2] == parts@[2]@);
                    if !register_operand_readable(&parts[2]) {
                        return None;
                    }
                    match self.parse_reg(&parts[2]) {
                        Err(e) => Some(Err(e)),
                        Ok(y) => {
                            if parts.len() < 4 {
                                return None;
                            }
                            assert(ps[3] == parts@[3]@);
                            match self.parse_u8(&parts[3]) {
                                Ok(n) => Some(Ok(0xD000 | (x << 8) | (y << 4) | (n as u16 & 0x000F))),
                                Err(e) => Some(Err(e)),
                            }
                        },
                    }
                },
            }
        } else {
            let msg = String::from_str("Unknown: ");
            let up = chars_to_string(&m);
            Some(Err(msg.concat(up.as_str())))
        }
    }
}


pub open spec fn outcome_view(r: Option<Result<Vec<u8>, String>>) -> Option<Result<Seq<u8>, Seq<char>>> {
    match r {
        None => None,
        Some(Ok(v)) => Some(Ok(v@)),
        Some(Err(e)) => Some(Err(e@)),
    }
}

/// A line that starts with something other than white space has a first word.
proof fn lemma_first_word(l: Seq<char>)
    requires
        l.len() > 0,
        !is_white_space(l[0]),
    ensures
        words(l).len() > 0,
{
    lemma_first_piece(l, Separator::WhiteSpace);
    lemma_pieces_not_empty(l, Separator::WhiteSpace);
    lemma_non_empty_first(pieces(l, Separator::WhiteSpace));
}

proof fn lemma_first_piece(s: Seq<char>, sep: Separator)
    requires
        s.len() > 0,
        !separates(sep, s[0]),
    ensures
        pieces(s, sep).len() > 0,
        pieces(s, sep)[0].len() > 0,
    decreases s.len(),
{
    lemma_pieces_not_empty(s, sep);
    lemma_pieces_not_empty(s.drop_last(), sep);
    if s.len() > 1 {
        lemma_first_piece(s.drop_last(), sep);
    }
}

proof fn lemma_non_empty_first(ls: Seq<Seq<char>>)
    requires
        ls.len() > 0,
        ls[0].len() > 0,
    ensures
        non_empty(ls).len() > 0,
    decreases ls.len(),
{
    if ls.len() > 1 {
        lemma_non_empty_first(ls.drop_last());
    }
}

/// Every line that reaches the passes holds something and starts with
/// something other than white space.
proof fn lemma_source_lines_start(src: Seq<char>)
    ensures
        forall|i: int| 0 <= i < source_lines(src).len() ==> {
            &&& #[trigger] source_lines(src)[i].len() > 0
            &&& !is_white_space(source_lines(src)[i][0])
        },
{
    let cl = pieces(src, Separator::Newline).map_values(|l: Seq<char>| clean_line(l));
    assert forall|j: int| 0 <= j < cl.len() && #[trigger] cl[j].len() > 0 implies !is_white_space(cl[j][0]) by {
        lemma_trim_first(before_comment(pieces(src, Separator::Newline)[j]));
    }
    lemma_non_empty_starts(cl);
}

proof fn lemma_non_empty_starts(ls: Seq<Seq<char>>)
    requires
        forall|j: int| 0 <= j < ls.len() && #[trigger] ls[j].len() > 0 ==> !is_white_space(ls[j][0]),
    ensures
        forall|i: int| 0 <= i < non_empty(ls).len() ==> {
            &&& #[trigger] non_empty(ls)[i].len() > 0
            &&& !is_white_space(non_empty(ls)[i][0])
        },
    decreases ls.len(),
{
    if ls.len() > 0 {
        lemma_non_empty_starts(ls.drop_last());
        let p = non_empty(ls.drop_last());
        assert forall|i: int| 0 <= i < non_empty(ls).len() implies {
            &&& #[trigger] non_empty(ls)[i].len() > 0
            &&& !is_white_space(non_empty(ls)[i][0])
        } by {
            if i < p.len() {
                assert(non_empty(ls)[i] == p[i]);
            } else {
                assert(non_empty(ls)[i] == ls.last());
                assert(ls.last() == ls[ls.len() - 1]);
            }
        }
    }
}

/// Addresses only grow along the program.
proof fn lemma_address_grows(lines: Seq<Seq<char>>, j: int, k: int)
    requires
        0 <= j <= k <= lines.len(),
    ensures
        address_after(lines.take(j)) <= address_after(lines.take(k)),
    decreases k - j,
{
    if j < k {
        lemma_address_grows(lines, j, k - 1);
        assert(lines.take(k).drop_last() =~= lines.take(k - 1));
    }
}

/// Once the second pass has failed or stopped, the later lines change nothing.
proof fn lemma_emit_stops(labels: Map<Seq<char>, u16>, lines: Seq<Seq<char>>, k: int)
    requires
        0 <= k <= lines.len(),
        !(emit_lines(labels, lines.take(k)) matches Some(Ok(_))),
    ensures
        emit_lines(labels, lines) == emit_lines(labels, lines.take(k)),
    decreases lines.len(),
{
    if k == lines.len() {
        assert(lines.take(k) =~= lines);
    } else {
        assert(lines.drop_last().take(k) =~= lines.take(k));
        lemma_emit_stops(labels, lines.drop_last(), k);
    }
}

/// The first-pass size of a line.
fn line_bytes(l: &Vec<char>) -> (r: u16)
    requires
        l@.len() > 0,
        !is_white_space(l@[0]),
    ensures
        r == line_size(l@),
{
    proof {
        lemma_first_word(l@);
    }
    let ws = keep_non_empty(&split(l, Separator::WhiteSpace));
    assert(views(ws@)[0] == ws@[0]@);
    let first = to_uppercase(&ws[0]);
    if chars_equal(&first, &keyword_db()) { 1 } else { 2 }
}

/// Whether a line defines a label.
fn is_label_line(l: &Vec<char>) -> (r: bool)
    ensures
        r == is_label(l@),
{
    l.len() > 0 && l[l.len() - 1] == ':'
}

/// The address after all lines, or `None` once it passes 0xFFFF.
fn program_end(lines: &Vec<Vec<char>>) -> (r: Option<u16>)
    requires
        forall|i: int| 0 <= i < lines@.len() ==> #[trigger] lines@[i]@.len() > 0 && !is_white_space(lines@[i]@[0]),
    ensures
        r matches Some(p) ==> p == address_after(views(lines@)),
        r is None ==> address_after(views(lines@)) > 0xFFFF,
{
    let ghost ls = views(lines@);
    let mut p: u32 = 0x200;
    let mut k: usize = 0;
    while k < lines.len()
        invariant
            k <= lines@.len(),
            ls == views(lines@),
            forall|i: int| 0 <= i < lines@.len() ==> #[trigger] lines@[i]@.len() > 0 && !is_white_space(lines@[i]@[0]),
            p == address_after(ls.take(k as int)),
            p <= 0xFFFF,
        decreases lines@.len() - k,
    {
        proof {
            assert(ls.take(k + 1).drop_last() =~= ls.take(k as int));
            assert(ls.take(k + 1).last() == lines@[k as int]@);
        }
        if !is_label_line(&lines[k]) {
            let size = line_bytes(&lines[k]);
            p = p + size as u32;
            if p > 0xFFFF {
                proof {
                    lemma_address_grows(ls, k + 1, ls.len() as int);
                    assert(ls.take(ls.len() as int) =~= ls);
                }
                return None;
            }
        }
        k += 1;
    }
    assert(ls.take(ls.len() as int) =~= ls);
    Some(p as u16)
}

impl Assembler {
    /// The first pass: records the address of every label.
    fn collect_labels(&mut self, lines: &Vec<Vec<char>>)
        requires
            old(self).wf(),
            forall|i: int| 0 <= i < lines@.len() ==> #[trigger] lines@[i]@.len() > 0 && !is_white_space(lines@[i]@[0]),
            address_after(views(lines@)) <= 0xFFFF,
        ensures
            final(self).wf(),
            final(self)@ == labels_after(old(self)@, views(lines@)),
    {
        let ghost ls = views(lines@);
        let ghost start = self@;
        let mut p: u16 = 0x200;
        let mut k: usize = 0;
        while k < lines.len()
            invariant
                k <= lines@.len(),
                ls == views(lines@),
                forall|i: int| 0 <= i < lines@.len() ==> #[trigger] lines@[i]@.len() > 0 && !is_white_space(lines@[i]@[0]),
                address_after(ls) <= 0xFFFF,
                p == address_after(ls.take(k as int)),
                self.wf(),
                self@ == labels_after(start, ls.take(k as int)),
            decreases lines@.len() - k,
        {
            proof {
                assert(ls.take(k + 1).drop_last() =~= ls.take(k as int));
                assert(ls.take(k + 1).last() == lines@[k as int]@);
                lemma_address_grows(ls, k + 1, ls.len() as int);
                assert(ls.take(ls.len() as int) =~= ls);
            }
            if is_label_line(&lines[k]) {
                let mut name = copy_chars(&lines[k]);
                name.pop();
                self.define(name, p);
            } else {
                let size = line_bytes(&lines[k]);
                p = p + size;
            }
            k += 1;
        }
        assert(ls.take(ls.len() as int) =~= ls);
    }

    /// The second pass on one line; `None` where assembly aborts.
    fn emit_one(&self, bin: &mut Vec<u8>, l: &Vec<char>) -> (r: Option<Result<(), String>>)
        requires
            self.wf(),
        ensures
            r matches Some(Ok(_)) ==> emit_line(self@, old(bin)@, l@) == Some(Ok::<Seq<u8>, Seq<char>>(final(bin)@)),
            r matches Some(Err(e)) ==> emit_line(self@, old(bin)@, l@) == Some(Err::<Seq<u8>, Seq<char>>(e@)),
            r is None ==> emit_line(self@, old(bin)@, l@) is None,
    {
        if is_label_line(l) {
            return Some(Ok(()));
        }
        let parts = keep_non_empty(&split(l, Separator::SpaceOrComma));
        if parts.len() == 0 {
            return None;
        }
        assert(views(parts@)[0] == parts@[0]@);
        let m = to_uppercase(&parts[0]);
        if chars_equal(&m, &keyword_db()) {
            if parts.len() < 2 {
                return None;
            }
            assert(views(parts@)[1] == parts@[1]@);
            match self.parse_u8(&parts[1]) {
                Ok(b) => {
                    bin.push(b);
                    Some(Ok(()))
                },
                Err(e) => Some(Err(e)),
            }
        } else {
            if bin.len() % 2 != 0 {
                bin.push(0);
            }
            match self.encode_instruction(&parts) {
                None => None,
                Some(Err(e)) => Some(Err(e)),
                Some(Ok(w)) => {
                    assert(w >> 8 == w / 256 && w & 0xFF == w % 256) by (bit_vector);
                    bin.push((w >> 8) as u8);
                    bin.push((w & 0xFF) as u8);
                    Some(Ok(()))
                },
            }
        }
    }

    /// The second pass over all lines.
    fn emit_all(&self, lines: &Vec<Vec<char>>) -> (r: Option<Result<Vec<u8>, String>>)
        requires
            self.wf(),
        ensures
            outcome_view(r) == emit_lines(self@, views(lines@)),
    {
        let ghost ls = views(lines@);
        let mut bin: Vec<u8> = Vec::new();
        let mut k: usize = 0;
        while k < lines.len()
            invariant
                k <= lines@.len(),
                ls == views(lines@),
                self.wf(),
                emit_lines(self@, ls.take(k as int)) == Some(Ok::<Seq<u8>, Seq<char>>(bin@)),
            decreases lines@.len() - k,
        {
            proof {
                assert(ls.take(k + 1).drop_last() =~= ls.take(k as int));
                assert(ls.take(k + 1).last() == lines@[k as int]@);
            }
            match self.emit_one(&mut bin, &lines[k]) {
                Some(Ok(())) => {},
                Some(Err(e)) => {
                    proof {
                        lemma_emit_stops(self@, ls, k + 1);
                    }
                    return Some(Err(e));
                },
                None => {
                    proof {
                        lemma_emit_stops(self@, ls, k + 1);
                    }
                    return None;
                },
            }
            k += 1;
        }
        assert(ls.take(ls.len() as int) =~= ls);
        Some(Ok(bin))
    }

    /// Both passes over `source`; `None` where assembly aborts.
    fn run(&mut self, source: &str) -> (r: Option<Result<Vec<u8>, String>>)
        requires
            old(self).wf(),
        ensures
            final(self).wf(),
            final(self)@ == assemble_spec(old(self)@, source@).0,
            outcome_view(r) == assemble_spec(old(self)@, source@).1,
    {
        let src = chars_of(source);
        let lines = clean_lines(&src);
        proof {
            lemma_source_lines_start(src@);
            assert forall|i: int| 0 <= i < lines@.len() implies #[trigger] lines@[i]@.len() > 0
                && !is_white_space(lines@[i]@[0]) by {
                assert(views(lines@)[i] == lines@[i]@);
            }
        }
        match program_end(&lines) {
            None => None,
            Some(_) => {
                self.collect_labels(&lines);
                self.emit_all(&lines)
            },
        }
    }

    /// A copy of the label table.
    fn duplicate(&self) -> (r: Self)
        requires
            self.wf(),
        ensures
            r.wf(),
            r@ == self@,
    {
        let mut names: Vec<Vec<char>> = Vec::new();
        let mut addrs: Vec<u16> = Vec::new();
        let mut k: usize = 0;
        while k < self.names.len()
            invariant
                self.wf(),
                k <= self.names@.len(),
                names@.len() == k,
                addrs@.len() == k,
                forall|j: int| 0 <= j < k ==> #[trigger] names@[j]@ == self.names@[j]@,
                forall|j: int| 0 <= j < k ==> #[trigger] addrs@[j] == self.addrs@[j],
            decreases self.names@.len() - k,
        {
            names.push(copy_chars(&self.names[k]));
            addrs.push(self.addrs[k]);
            k += 1;
        }
        let r = Assembler { names, addrs };
        proof {
            assert forall|a: int, b: int| 0 <= a < b < r.names@.len() implies #[trigger] r.names@[a]@
                != #[trigger] r.names@[b]@ by {
                assert(self.names@[a]@ != self.names@[b]@);
            }
            assert forall|k: Seq<char>| #![auto] r@.contains_key(k) == self@.contains_key(k) by {
                if r@.contains_key(k) {
                    let c = choose|c: int| 0 <= c < r.names@.len() && #[trigger] r.names@[c]@ == k;
                    self.lemma_entry(c);
                }
                if self@.contains_key(k) {
                    let c = choose|c: int| 0 <= c < self.names@.len() && #[trigger] self.names@[c]@ == k;
                    r.lemma_entry(c);
                }
            }
            assert forall|k: Seq<char>| #[trigger] r@.contains_key(k) implies r@[k] == self@[k] by {
                let c = choose|c: int| 0 <= c < r.names@.len() && #[trigger] r.names@[c]@ == k;
                self.lemma_entry(c);
                r.lemma_entry(c);
            }
            assert(r@ =~= self@);
        }
        r
    }

    /// Assembles `source` into a ROM image: two passes over the lines that
    /// hold something once comments (from `;`) and surrounding white space
    /// are gone. The first records each label (a line ending in `:`) at the
    /// address of what follows, from 0x200; the second emits `DB` bytes and
    /// instruction words, high byte first, each word at an even offset. Labels
    /// stay known for later calls.
    pub fn assemble(&mut self, source: &str) -> (r: Result<Vec<u8>, String>)
        requires
            assemble_spec(old(self)@, source@).1 is Some,
        ensures
            final(self)@ == assemble_spec(old(self)@, source@).0,
            Some(bytes_view(r)) == assemble_spec(old(self)@, source@).1,
    {
        proof {
            use_type_invariant(&*self);
        }
        match self.run(source) {
            Some(r) => r,
            None => Err(String::from_str("")),
        }
    }

    /// `assemble` where it runs to completion; `None`, with the label table
    /// unchanged, on the sources where assembly aborts.
    pub fn try_assemble(&mut self, source: &str) -> (r: Option<Result<Vec<u8>, String>>)
        ensures
            r is None <==> assemble_spec(old(self)@, source@).1 is None,
            r is None ==> final(self)@ == old(self)@,
            r is Some ==> final(self)@ == assemble_spec(old(self)@, source@).0,
            outcome_view(r) == assemble_spec(old(self)@, source@).1,
    {
        proof {
            use_type_invariant(&*self);
        }
        let mut probe = self.duplicate();
        match probe.run(source) {
            None => None,
            Some(_) => Some(self.assemble(source)),
        }
    }
}


/// What the assembler writes, the machine reads back: every word the
/// assembler forms decodes to the instruction its mnemonic names, with the
/// register numbers, byte and sprite height that were written (addresses and
/// heights keep the bits that fit).
pub proof fn lemma_assembled_words_decode(x: u16, y: u16, b: u8, a: u16, n: u16)
    requires
        x < 16,
        y < 16,
    ensures
        decode_spec(0x00E0u16) == Opcode::Cls,
        decode_spec(0x00EEu16) == Opcode::Ret,
        decode_spec(jp_word(a)) == (Opcode::Jp { addr: (a % 0x1000) as u16 }),
        decode_spec(ld_i_word(a)) == (Opcode::LdI { addr: (a % 0x1000) as u16 }),
        decode_spec(ld_reg_word(x, y)) == (Opcode::LdReg { x: x as u8, y: y as u8 }),
        decode_spec(ld_byte_word(x, b)) == (Opcode::LdByte { x: x as u8, byte: b }),
        decode_spec(add_byte_word(x, b)) == (Opcode::AddByte { x: x as u8, byte: b }),
        decode_spec(draw_word(x, y, n)) == (Opcode::Draw { x: x as u8, y: y as u8, n: (n % 16) as u8 }),
{
    let w = jp_word(a);
    assert(w / 0x1000 == 1 && w % 0x1000 == a % 0x1000) by (bit_vector)
        requires w == 0x1000u16 | (a & 0x0FFFu16);
    let w = ld_i_word(a);
    assert(w / 0x1000 == 0xA && w % 0x1000 == a % 0x1000) by (bit_vector)
        requires w == 0xA000u16 | (a & 0x0FFFu16);
    let w = ld_reg_word(x, y);
    assert(w / 0x1000 == 8 && (w / 0x100) % 16 == x && (w / 0x10) % 16 == y && w % 16 == 0) by (bit_vector)
        requires w == 0x8000u16 | (x << 8u16) | (y << 4u16), x < 16, y < 16;
    let w = ld_byte_word(x, b);
    let bb = b as u16;
    assert(w / 0x1000 == 6 && (w / 0x100) % 16 == x && w % 0x100 == bb) by (bit_vector)
        requires w == 0x6000u16 | (x << 8u16) | bb, x < 16, bb < 256;
    let w = add_byte_word(x, b);
    assert(w / 0x1000 == 7 && (w / 0x100) % 16 == x && w % 0x100 == bb) by (bit_vector)
        requires w == 0x7000u16 | (x << 8u16) | bb, x < 16, bb < 256;
    let w = draw_word(x, y, n);
    assert(w / 0x1000 == 0xD && (w / 0x100) % 16 == x && (w / 0x10) % 16 == y && w % 16 == n % 16) by (bit_vector)
        requires w == 0xD000u16 | (x << 8u16) | (y << 4u16) | (n & 0x000Fu16), x < 16, y < 16;
}

/// The first pass's addresses are where the second pass puts the code: where
/// both passes agree on which lines are `DB` lines and an even number of `DB`
/// lines comes before each instruction (so the second pass never pads), the
/// address the first pass gives the point after any run of lines is 0x200
/// plus the number of bytes the second pass has emitted for those lines. So
/// a label names the address at which the instruction after it is loaded.
pub proof fn lemma_labels_address_code(labels: Map<Seq<char>, u16>, lines: Seq<Seq<char>>, bin: Seq<u8>)
    requires
        forall|i: int| 0 <= i < lines.len() && !is_label(#[trigger] lines[i]) ==>
            (capitalized(words(lines[i])[0]) == kw_db()) == (capitalized(operands(lines[i])[0]) == kw_db()),
        forall|i: int| 0 <= i < lines.len() && !is_label(#[trigger] lines[i]) && !is_data_line(lines[i]) ==>
            data_lines(lines.take(i)) % 2 == 0,
        emit_lines(labels, lines) == Some(Ok::<Seq<u8>, Seq<char>>(bin)),
    ensures
        address_after(lines) == 0x200 + bin.len(),
        bin.len() == data_lines(lines) + 2 * instruction_lines(lines),
    decreases lines.len(),
{
    lemma_address_counted(lines);
    if lines.len() > 0 {
        let prev = lines.drop_last();
        assert forall|i: int| 0 <= i < prev.len() && !is_label(#[trigger] prev[i]) implies
            (capitalized(words(prev[i])[0]) == kw_db()) == (capitalized(operands(prev[i])[0]) == kw_db()) by {
            assert(prev[i] == lines[i]);
        }
        assert forall|i: int| 0 <= i < prev.len() && !is_label(#[trigger] prev[i]) && !is_data_line(prev[i]) implies
            data_lines(prev.take(i)) % 2 == 0 by {
            assert(prev[i] == lines[i]);
            assert(prev.take(i) =~= lines.take(i));
        }
        let l = lines.last();
        assert(l == lines[lines.len() - 1]);
        assert(lines.take(lines.len() - 1) =~= prev);
        match emit_lines(labels, prev) {
            Some(Ok(b0)) => {
                lemma_labels_address_code(labels, prev, b0);
            },
            _ => {},
        }
    }
}


/// A `DB` line as the first pass judges it.
pub open spec fn is_data_line(l: Seq<char>) -> bool {
    !is_label(l) && capitalized(words(l)[0]) == kw_db()
}

/// How many of `lines` the first pass counts as `DB` lines.
pub open spec fn data_lines(lines: Seq<Seq<char>>) -> int
    decreases lines.len(),
{
    if lines.len() == 0 {
        0
    } else {
        data_lines(lines.drop_last()) + if is_data_line(lines.last()) { 1int } else { 0int }
    }
}

/// How many of `lines` the first pass counts as instructions: neither labels nor `DB`.
pub open spec fn instruction_lines(lines: Seq<Seq<char>>) -> int
    decreases lines.len(),
{
    if lines.len() == 0 {
        0
    } else {
        instruction_lines(lines.drop_last()) + if !is_label(lines.last()) && !is_data_line(lines.last()) {
            1int
        } else {
            0int
        }
    }
}

/// The first pass's address after some lines is 0x200, plus one per `DB`
/// line, plus two per instruction line.
pub proof fn lemma_address_counted(lines: Seq<Seq<char>>)
    ensures
        address_after(lines) == 0x200 + data_lines(lines) + 2 * instruction_lines(lines),
    decreases lines.len(),
{
    if lines.len() > 0 {
        lemma_address_counted(lines.drop_last());
    }
}

/// The table after the first pass is the table before, overridden by what
/// the lines define.
pub proof fn lemma_labels_override(labels: Map<Seq<char>, u16>, lines: Seq<Seq<char>>)
    ensures
        labels_after(labels, lines) == labels.union_prefer_right(labels_after(Map::empty(), lines)),
    decreases lines.len(),
{
    if lines.len() == 0 {
        assert(labels.union_prefer_right(Map::empty()) =~= labels);
    } else {
        lemma_labels_override(labels, lines.drop_last());
        lemma_labels_override(Map::empty(), lines.drop_last());
        let prev = labels_after(Map::empty(), lines.drop_last());
        assert(Map::<Seq<char>, u16>::empty().union_prefer_right(prev) =~= prev);
        if is_label(lines.last()) {
            let k = label_name(lines.last());
            let v = address_after(lines.drop_last()) as u16;
            assert(labels.union_prefer_right(prev).insert(k, v) =~= labels.union_prefer_right(prev.insert(k, v)));
        }
    }
}

/// A label line that no later line defines again leaves its label at 0x200,
/// plus one per `DB` line before it, plus two per instruction line before it.
pub proof fn lemma_label_address(labels: Map<Seq<char>, u16>, lines: Seq<Seq<char>>, j: int)
    requires
        0 <= j < lines.len(),
        is_label(lines[j]),
        forall|i: int| j < i < lines.len() && is_label(#[trigger] lines[i]) ==> label_name(lines[i]) != label_name(lines[j]),
    ensures
        labels_after(labels, lines).contains_key(label_name(lines[j])),
        labels_after(labels, lines)[label_name(lines[j])]
            == (0x200 + data_lines(lines.take(j)) + 2 * instruction_lines(lines.take(j))) as u16,
    decreases lines.len(),
{
    if j == lines.len() - 1 {
        assert(lines.drop_last() =~= lines.take(j));
        lemma_address_counted(lines.take(j));
    } else {
        let prev = lines.drop_last();
        assert(prev.take(j) =~= lines.take(j));
        assert forall|i: int| j < i < prev.len() && is_label(#[trigger] prev[i]) implies label_name(prev[i]) != label_name(prev[j]) by {
            assert(prev[i] == lines[i]);
        }
        lemma_label_address(labels, prev, j);
        assert(lines.last() == lines[lines.len() - 1]);
    }
}

/// A label that no line defines keeps what the table held before.
pub proof fn lemma_label_untouched(labels: Map<Seq<char>, u16>, lines: Seq<Seq<char>>, k: Seq<char>)
    requires
        forall|i: int| 0 <= i < lines.len() && is_label(#[trigger] lines[i]) ==> label_name(lines[i]) != k,
    ensures
        labels_after(labels, lines).contains_key(k) == labels.contains_key(k),
        labels.contains_key(k) ==> labels_after(labels, lines)[k] == labels[k],
    decreases lines.len(),
{
    if lines.len() > 0 {
        let prev = lines.drop_last();
        assert forall|i: int| 0 <= i < prev.len() && is_label(#[trigger] prev[i]) implies label_name(prev[i]) != k by {
            assert(prev[i] == lines[i]);
        }
        lemma_label_untouched(labels, prev, k);
        assert(lines.last() == lines[lines.len() - 1]);
    }
}

/// Assembling the same source again, with the table the first run left,
/// gives the same table and the same result.
pub proof fn lemma_reassemble_same(labels: Map<Seq<char>, u16>, src: Seq<char>)
    ensures
        assemble_spec(assemble_spec(labels, src).0, src) == assemble_spec(labels, src),
{
    let lines = source_lines(src);
    if address_after(lines) <= 0xFFFF {
        let table = labels_after(labels, lines);
        lemma_labels_override(labels, lines);
        lemma_labels_override(table, lines);
        let defs = labels_after(Map::empty(), lines);
        assert(table.union_prefer_right(defs) =~= table);
    }
}


/// An address operand that names no label is read as a number, and fails as
/// a number does; a byte operand is the number cut to eight bits.
pub proof fn lemma_operand_readings(labels: Map<Seq<char>, u16>, s: Seq<char>)
    ensures
        !labels.contains_key(s) ==> resolve_spec(labels, s) == number_spec(s),
        number_spec(s) is Err ==> number_spec(s) == Err::<u16, Seq<char>>("Num err"@),
        byte_spec(s) == (match number_spec(s) {
            Ok(v) => Ok((v as int % 256) as u8),
            Err(e) => Err(e),
        }),
{
    if let Ok(v) = number_spec(s) {
        assert(v as u8 == (v as int % 256) as u8) by (bit_vector);
    }
}

/// A mnemonic counts only through its uppercase form, Unicode included: two
/// instructions whose mnemonics uppercase alike, with the same operands,
/// assemble to the same word or the same error.
pub proof fn lemma_mnemonic_case(labels: Map<Seq<char>, u16>, parts: Seq<Seq<char>>, parts2: Seq<Seq<char>>)
    requires
        parts.len() >= 1,
        parts2.len() == parts.len(),
        capitalized(parts[0]) == capitalized(parts2[0]),
        forall|i: int| 1 <= i < parts.len() ==> parts[i] == parts2[i],
    ensures
        encode_spec(labels, parts) == encode_spec(labels, parts2),
{
    if parts.len() >= 2 {
        assert(parts[1] == parts2[1]);
    }
    if parts.len() >= 3 {
        assert(parts[2] == parts2[2]);
    }
    if parts.len() >= 4 {
        assert(parts[3] == parts2[3]);
    }
}

/// Two ASCII words that differ at most in the case of their letters, where
/// a number's `0x` prefix keeps its lowercase `x`.
pub open spec fn same_but_case(a: Seq<char>, b: Seq<char>) -> bool {
    &&& a.len() == b.len()
    &&& is_ascii_text(a)
    &&& is_ascii_text(b)
    &&& ascii_capitals(a) == ascii_capitals(b)
    &&& (a.len() >= 2 && a[0] == '0' ==> a[1] == b[1])
}

/// ASCII case does not matter: mnemonics, the `I` of `LD I`, the `V` of a
/// register and hexadecimal digits may be written in either case, and the
/// instruction assembles alike, so long as no operand names a label.
pub proof fn lemma_case_insensitive(labels: Map<Seq<char>, u16>, parts: Seq<Seq<char>>, parts2: Seq<Seq<char>>)
    requires
        parts.len() >= 1,
        parts2.len() == parts.len(),
        forall|i: int| 0 <= i < parts.len() ==> same_but_case(#[trigger] parts[i], parts2[i]),
        forall|i: int| 1 <= i < parts.len() ==> !labels.contains_key(#[trigger] parts[i]) && !labels.contains_key(parts2[i]),
    ensures
        encode_spec(labels, parts) == encode_spec(labels, parts2),
{
    assert(same_but_case(parts[0], parts2[0]));
    assert forall|j: int| 1 <= j < parts.len() implies {
        &&& capitalized(#[trigger] parts[j]) == capitalized(parts2[j])
        &&& resolve_spec(labels, parts[j]) == resolve_spec(labels, parts2[j])
        &&& byte_spec(parts[j]) == byte_spec(parts2[j])
        &&& register_spec(parts[j]) == register_spec(parts2[j])
    } by {
        assert(same_but_case(parts[j], parts2[j]));
        lemma_number_case(parts[j], parts2[j]);
    }
    let m = capitalized(parts[0]);
    assert(m == capitalized(parts2[0]));
    if parts.len() >= 2 {
        assert(capitalized(parts[1]) == capitalized(parts2[1]));
        assert(register_spec(parts[1]) == register_spec(parts2[1]));
        assert(resolve_spec(labels, parts[1]) == resolve_spec(labels, parts2[1]));
    }
    if parts.len() >= 3 {
        assert(capitalized(parts[2]) == capitalized(parts2[2]));
        assert(register_spec(parts[2]) == register_spec(parts2[2]));
        assert(resolve_spec(labels, parts[2]) == resolve_spec(labels, parts2[2]));
        assert(byte_spec(parts[2]) == byte_spec(parts2[2]));
    }
    if parts.len() >= 4 {
        assert(byte_spec(parts[3]) == byte_spec(parts2[3]));
    }
}

/// Whether operand `k` of an instruction is read as a number: the address
/// of `JP` and of `LD I`, the byte of `LD Vx` and of `ADD`, the height of `DRW`.
pub open spec fn number_operand(parts: Seq<Seq<char>>, k: int) -> bool {
    let m = capitalized(parts[0]);
    ||| m == kw_jp() && k == 1
    ||| m == kw_ld() && k == 2
    ||| m == kw_add() && k == 2
    ||| m == kw_drw() && k == 3
}

/// A number operand counts only through the number it reads as: written in
/// decimal or as `0x` and hexadecimal digits, the same value assembles alike,
/// so long as neither spelling names a label.
pub proof fn lemma_number_spelling(labels: Map<Seq<char>, u16>, parts: Seq<Seq<char>>, k: int, t: Seq<char>)
    requires
        1 <= k < parts.len(),
        number_operand(parts, k),
        parse_number(t) is Some,
        parse_number(parts[k]) == parse_number(t),
        is_ascii_text(parts[k]),
        is_ascii_text(t),
        !labels.contains_key(parts[k]),
        !labels.contains_key(t),
    ensures
        encode_spec(labels, parts) == encode_spec(labels, parts.update(k, t)),
{
    let p2 = parts.update(k, t);
    assert(p2[0] == parts[0]);
    lemma_number_start(t);
    lemma_number_start(parts[k]);
    assert(ascii_capitals(t)[0] == ascii_capital(t[0]));
    assert(ascii_capitals(parts[k])[0] == ascii_capital(parts[k][0]));
    assert(capitalized(t)[0] != 'V');
    assert(capitalized(parts[k])[0] != 'V');
    assert(p2[k] == t);
    assert forall|j: int| 1 <= j < parts.len() && j != k implies #[trigger] p2[j] == parts[j] by {}
    if k == 1 {
        assert(resolve_spec(labels, parts[1]) == resolve_spec(labels, p2[1]));
    } else if k == 2 {
        assert(p2[1] == parts[1]);
        assert(resolve_spec(labels, parts[2]) == resolve_spec(labels, p2[2]));
        assert(byte_spec(parts[2]) == byte_spec(p2[2]));
    } else {
        assert(p2[1] == parts[1]);
        assert(p2[2] == parts[2]);
        assert(byte_spec(parts[3]) == byte_spec(p2[3]));
    }
}

/// The instruction that an assembly line written with register numbers below
/// 16 stands for, as the machine names it; `None` for `DB`, unknown
/// mnemonics, a missing or unreadable operand, or a register past `VF`.
pub open spec fn intended_opcode(labels: Map<Seq<char>, u16>, parts: Seq<Seq<char>>) -> Option<Opcode> {
    let m = capitalized(parts[0]);
    if m == kw_cls() {
        Some(Opcode::Cls)
    } else if m == kw_ret() {
        Some(Opcode::Ret)
    } else if m == kw_jp() && parts.len() >= 2 && resolve_spec(labels, parts[1]) is Ok {
        Some(Opcode::Jp { addr: (resolve_spec(labels, parts[1])->Ok_0 as int % 0x1000) as u16 })
    } else if m == kw_ld() && parts.len() >= 3 && capitalized(parts[1]) == kw_i() {
        if resolve_spec(labels, parts[2]) is Ok {
            Some(Opcode::LdI { addr: (resolve_spec(labels, parts[2])->Ok_0 as int % 0x1000) as u16 })
        } else {
            None
        }
    } else if m == kw_ld() && parts.len() >= 3 && capitalized(parts[1]).len() > 0 && capitalized(parts[1])[0] == 'V'
        && small_register(capitalized(parts[1])) is Some {
        let x = small_register(capitalized(parts[1]))->0;
        let src = capitalized(parts[2]);
        if src.len() > 0 && src[0] == 'V' {
            if small_register(parts[2]) is Some {
                Some(Opcode::LdReg { x: x as u8, y: small_register(parts[2])->0 as u8 })
            } else {
                None
            }
        } else if byte_spec(parts[2]) is Ok {
            Some(Opcode::LdByte { x: x as u8, byte: byte_spec(parts[2])->Ok_0 })
        } else {
            None
        }
    } else if m == kw_add() && parts.len() >= 3 && small_register(parts[1]) is Some && byte_spec(parts[2]) is Ok {
        Some(Opcode::AddByte { x: small_register(parts[1])->0 as u8, byte: byte_spec(parts[2])->Ok_0 })
    } else if m == kw_drw() && parts.len() >= 4 && small_register(parts[1]) is Some
        && small_register(parts[2]) is Some && byte_spec(parts[3]) is Ok {
        Some(Opcode::Draw {
            x: small_register(parts[1])->0 as u8,
            y: small_register(parts[2])->0 as u8,
            n: (byte_spec(parts[3])->Ok_0 as int % 16) as u8,
        })
    } else {
        None
    }
}

/// A readable register operand naming one of `V0` to `VF`.
pub open spec fn small_register(s: Seq<char>) -> Option<u16> {
    match register_spec(s) {
        Some(Ok(x)) => if x < 16 { Some(x) } else { None },
        _ => None,
    }
}

/// Decoding undoes encoding: an instruction line that stands for an opcode
/// assembles to a word that decodes to that opcode.
pub proof fn lemma_encoding_decodes(labels: Map<Seq<char>, u16>, parts: Seq<Seq<char>>)
    requires
        parts.len() >= 1,
        intended_opcode(labels, parts) is Some,
    ensures
        encode_spec(labels, parts) matches Some(Ok(w)) && decode_spec(w) == intended_opcode(labels, parts)->0,
{
    let m = capitalized(parts[0]);
    if m == kw_jp() && parts.len() >= 2 && resolve_spec(labels, parts[1]) is Ok {
        lemma_assembled_words_decode(0, 0, 0, resolve_spec(labels, parts[1])->Ok_0, 0);
    } else if m == kw_ld() && parts.len() >= 3 && capitalized(parts[1]) == kw_i() {
        lemma_assembled_words_decode(0, 0, 0, resolve_spec(labels, parts[2])->Ok_0, 0);
    } else if m == kw_ld() {
        let x = small_register(capitalized(parts[1]))->0;
        let src = capitalized(parts[2]);
        if src.len() > 0 && src[0] == 'V' {
            let y = small_register(parts[2])->0;
            lemma_assembled_words_decode(x, y, 0, 0, 0);
        } else {
            lemma_assembled_words_decode(x, 0, byte_spec(parts[2])->Ok_0, 0, 0);
        }
    } else if m == kw_add() {
        let x = small_register(parts[1])->0;
        lemma_assembled_words_decode(x, 0, byte_spec(parts[2])->Ok_0, 0, 0);
    } else if m == kw_drw() {
        let x = small_register(parts[1])->0;
        let y = small_register(parts[2])->0;
        let n = byte_spec(parts[3])->Ok_0;
        lemma_assembled_words_decode(x, y, 0, 0, n as u16);
        assert((n as u16) % 16 == (n as int % 16));
    } else {
        lemma_assembled_words_decode(0, 0, 0, 0, 0);
    }
}


/// The second pass only appends to what it has emitted.
proof fn lemma_emit_line_extends(labels: Map<Seq<char>, u16>, bin: Seq<u8>, l: Seq<char>)
    requires
        emit_line(labels, bin, l) is Some,
        emit_line(labels, bin, l)->0 is Ok,
    ensures
        emit_line(labels, bin, l)->0->Ok_0.len() >= bin.len(),
        emit_line(labels, bin, l)->0->Ok_0.take(bin.len() as int) == bin,
{
    let out = emit_line(labels, bin, l)->0->Ok_0;
    assert(out.take(bin.len() as int) =~= bin);
}

/// What the second pass has emitted after some first lines is the start of
/// what it emits for the whole program.
proof fn lemma_emit_prefix(labels: Map<Seq<char>, u16>, lines: Seq<Seq<char>>, k: int)
    requires
        0 <= k <= lines.len(),
        emit_lines(labels, lines) is Some,
        emit_lines(labels, lines)->0 is Ok,
    ensures
        emit_lines(labels, lines.take(k)) is Some,
        emit_lines(labels, lines.take(k))->0 is Ok,
        emit_lines(labels, lines.take(k))->0->Ok_0.len() <= emit_lines(labels, lines)->0->Ok_0.len(),
        emit_lines(labels, lines)->0->Ok_0.take(emit_lines(labels, lines.take(k))->0->Ok_0.len() as int)
            == emit_lines(labels, lines.take(k))->0->Ok_0,
    decreases lines.len(),
{
    let b = emit_lines(labels, lines)->0->Ok_0;
    if k == lines.len() {
        assert(lines.take(k) =~= lines);
        assert(b.take(b.len() as int) =~= b);
    } else {
        let prev = lines.drop_last();
        assert(prev.take(k) =~= lines.take(k));
        lemma_emit_prefix(labels, prev, k);
        let bp = emit_lines(labels, prev)->0->Ok_0;
        lemma_emit_line_extends(labels, bp, lines.last());
        let bk = emit_lines(labels, lines.take(k))->0->Ok_0;
        assert(b.take(bk.len() as int) =~= bp.take(bk.len() as int));
    }
}

/// An instruction line ends what it emits with its word, high byte first.
proof fn lemma_emit_line_word(labels: Map<Seq<char>, u16>, bin: Seq<u8>, l: Seq<char>)
    requires
        !is_label(l),
        operands(l).len() > 0,
        capitalized(operands(l)[0]) != kw_db(),
        encode_spec(labels, operands(l)) is Some,
        encode_spec(labels, operands(l))->0 is Ok,
    ensures
        ({
            let out = emit_line(labels, bin, l)->0->Ok_0;
            let w = encode_spec(labels, operands(l))->0->Ok_0;
            &&& emit_line(labels, bin, l) is Some
            &&& emit_line(labels, bin, l)->0 is Ok
            &&& out.len() >= 2
            &&& out[out.len() - 2] as int * 256 + out[out.len() - 1] as int == w as int
        }),
{
}

/// A program runs as written: where an assembly line stands for an opcode,
/// a machine that holds the assembled bytes from 0x200 on and whose program
/// counter reaches that line's word fetches exactly that opcode.
pub proof fn lemma_assembled_line_runs(
    labels: Map<Seq<char>, u16>,
    src: Seq<char>,
    j: int,
    s: ChipView,
    b: Seq<u8>,
)
    requires
        assemble_spec(labels, src).1 == Some(Ok::<Seq<u8>, Seq<char>>(b)),
        0 <= j < source_lines(src).len(),
        !is_label(source_lines(src)[j]),
        operands(source_lines(src)[j]).len() > 0,
        intended_opcode(assemble_spec(labels, src).0, operands(source_lines(src)[j])) is Some,
        s.wf(),
        0x200 + b.len() <= 4096,
        forall|i: int| 0 <= i < b.len() ==> s.memory[0x200 + i] == b[i],
    ensures
        ({
            let lines = source_lines(src);
            let table = assemble_spec(labels, src).0;
            let upto = emit_lines(table, lines.take(j + 1));
            &&& upto is Some && upto->0 is Ok
            &&& 2 <= upto->0->Ok_0.len() <= b.len()
            &&& s.pc == 0x200 + upto->0->Ok_0.len() - 2 ==> decode_spec(s.current_word())
                == intended_opcode(table, operands(lines[j]))->0
        }),
{
    let lines = source_lines(src);
    let table = assemble_spec(labels, src).0;
    let parts = operands(lines[j]);
    assert(address_after(lines) <= 0xFFFF);
    lemma_encoding_decodes(table, parts);
    assert(capitalized(parts[0]) != kw_db()) by {
        assert(kw_db().len() == 2 && kw_cls().len() == 3 && kw_ret().len() == 3 && kw_add().len() == 3
            && kw_drw().len() == 3);
        assert(kw_db()[0] != kw_jp()[0] && kw_db()[0] != kw_ld()[0]);
    }
    lemma_emit_prefix(table, lines, j + 1);
    lemma_emit_prefix(table, lines, j);
    let take_j1 = lines.take(j + 1);
    assert(take_j1.drop_last() =~= lines.take(j));
    assert(take_j1.last() == lines[j]);
    let bprev = emit_lines(table, lines.take(j))->0->Ok_0;
    lemma_emit_line_word(table, bprev, lines[j]);
    let bj = emit_lines(table, take_j1)->0->Ok_0;
    assert(bj == emit_line(table, bprev, lines[j])->0->Ok_0);
    if s.pc == 0x200 + bj.len() - 2 {
        let k = bj.len() - 2;
        assert(b.take(bj.len() as int)[k] == b[k]);
        assert(b.take(bj.len() as int)[k + 1] == b[k + 1]);
        assert(s.memory[0x200 + k] == b[k]);
        assert(s.memory[0x200 + k + 1] == b[k + 1]);
    }
}

} // verus!
