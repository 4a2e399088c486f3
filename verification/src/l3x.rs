//! The instruction model: a grid cell holds a direction and a command, and
//! instructions travel through a compact textual encoding such as `"12R"`,
//! `"%L"`, `"&D"` or `"~U"`.

use vstd::prelude::*;

use crate::direction::Direction;
use crate::numeral::all_digits;
use crate::numeral::dec_str;
use crate::numeral::digits_value;
use crate::numeral::is_digit;
use crate::numeral::push_char;
use crate::numeral::value_of;
use crate::numeral::RegisterParseError;
use crate::registers::wf_factors;
use crate::registers::Registers;

verus! {

/// One grid cell: a command and the direction of its major output.
#[derive(Debug, PartialEq)]
pub struct L3X {
    pub direction: Direction,
    pub command: L3XCommand,
}

/// What a cell does to a traveler.
#[derive(Debug, PartialEq)]
pub enum L3XCommand {
    Multiply(Registers),
    Duplicate,
    Queue,
    Annihilate,
}

/// Why instruction text fails to parse.
#[derive(Debug, PartialEq, Eq, Structural, Clone, Copy)]
pub enum L3XParseError {
    BadDirection,
    BadCommand,
    ZeroCommand,
    NumberOverflow,
    WrongLength,
    UnaccountedCharacters,
    Empty,
}

/// An exit port of a cell: the forward path, or the divisor's backward path.
#[derive(Debug, PartialEq, Eq, Structural, Clone, Copy)]
pub enum Output {
    Major(Direction),
    Minor(Direction),
}

impl Output {
    pub fn direction(self) -> (r: Direction)
        ensures
            r == self.spec_direction(),
    {
        match self {
            Output::Major(d) => d,
            Output::Minor(d) => d,
        }
    }

    pub open spec fn spec_direction(self) -> Direction {
        match self {
            Output::Major(d) => d,
            Output::Minor(d) => d,
        }
    }

    pub fn is_major(self) -> (r: bool)
        ensures
            r == (self matches Output::Major(_)),
    {
        matches!(self, Output::Major(_))
    }
}

/// The mathematical shadow of a grid cell.
pub ghost struct InstrView {
    pub direction: Direction,
    pub command: CmdView,
}

pub ghost enum CmdView {
    Multiply(Seq<(int, int)>),
    Duplicate,
    Queue,
    Annihilate,
}

impl DeepView for L3X {
    type V = InstrView;

    open spec fn deep_view(&self) -> InstrView {
        InstrView {
            direction: self.direction,
            command: match self.command {
                L3XCommand::Multiply(r) => CmdView::Multiply(r@),
                L3XCommand::Duplicate => CmdView::Duplicate,
                L3XCommand::Queue => CmdView::Queue,
                L3XCommand::Annihilate => CmdView::Annihilate,
            },
        }
    }
}

/// The mathematical shadow of a parsed instruction: the multiplier appears
/// as its integer value rather than as a factor list.
pub ghost enum SpecCommand {
    MulBy(int),
    Duplicate,
    Queue,
    Annihilate,
}

pub ghost struct SpecInstr {
    pub direction: Direction,
    pub command: SpecCommand,
}

/// The Unicode white-space characters, the set that trimming removes.
pub open spec fn is_space(c: char) -> bool {
    ||| c as int == 0x9
    ||| c as int == 0xA
    ||| c as int == 0xB
    ||| c as int == 0xC
    ||| c as int == 0xD
    ||| c as int == 0x20
    ||| c as int == 0x85
    ||| c as int == 0xA0
    ||| c as int == 0x1680
    ||| 0x2000 <= c as int <= 0x200A
    ||| c as int == 0x2028
    ||| c as int == 0x2029
    ||| c as int == 0x202F
    ||| c as int == 0x205F
    ||| c as int == 0x3000
}

pub open spec fn is_alpha(c: char) -> bool {
    (97 <= c as int <= 122) || (65 <= c as int <= 90)
}

/// The direction a letter selects, if any.
pub open spec fn dir_of_char(c: char) -> Option<Direction> {
    if c == 'u' || c == 'U' || c == 'n' || c == 'N' {
        Some(Direction::Up)
    } else if c == 'd' || c == 'D' || c == 's' || c == 'S' {
        Some(Direction::Down)
    } else if c == 'l' || c == 'L' || c == 'w' || c == 'W' {
        Some(Direction::Left)
    } else if c == 'r' || c == 'R' || c == 'e' || c == 'E' {
        Some(Direction::Right)
    } else {
        None
    }
}

/// The canonical letter for a direction.
pub open spec fn canon_dir_char(d: Direction) -> char {
    match d {
        Direction::Up => 'U',
        Direction::Down => 'D',
        Direction::Left => 'L',
        Direction::Right => 'R',
    }
}

pub open spec fn trim_start(s: Seq<char>) -> Seq<char>
    decreases s.len(),
{
    if s.len() > 0 && is_space(s[0]) {
        trim_start(s.drop_first())
    } else {
        s
    }
}

pub open spec fn trim_end(s: Seq<char>) -> Seq<char>
    decreases s.len(),
{
    if s.len() > 0 && is_space(s.last()) {
        trim_end(s.drop_last())
    } else {
        s
    }
}

pub open spec fn spec_trim(s: Seq<char>) -> Seq<char> {
    trim_end(trim_start(s))
}

/// The whole parse, as a mathematical function of the text. Empty (after
/// trimming) means "no instruction"; otherwise the last character picks the
/// direction and the prefix picks the command.
pub open spec fn spec_parse_maybe(raw: Seq<char>) -> Result<Option<SpecInstr>, L3XParseError> {
    let t = spec_trim(raw);
    if t.len() == 0 {
        Ok(None)
    } else {
        match dir_of_char(t.last()) {
            None => Err(L3XParseError::BadDirection),
            Some(d) => {
                let pre = t.drop_last();
                if exists|i: int| 0 <= i < pre.len() && is_alpha(#[trigger] pre[i]) {
                    Err(L3XParseError::UnaccountedCharacters)
                } else if pre.len() > 0 && all_digits(pre) {
                    let v = digits_value(pre);
                    if v == 0 {
                        Err(L3XParseError::ZeroCommand)
                    } else if v > u64::MAX {
                        Err(L3XParseError::NumberOverflow)
                    } else {
                        Ok(Some(SpecInstr { direction: d, command: SpecCommand::MulBy(v) }))
                    }
                } else if pre.len() == 0 {
                    Err(L3XParseError::WrongLength)
                } else if pre.len() == 1 && pre[0] == '%' {
                    Ok(Some(SpecInstr { direction: d, command: SpecCommand::Duplicate }))
                } else if pre.len() == 1 && pre[0] == '&' {
                    Ok(Some(SpecInstr { direction: d, command: SpecCommand::Queue }))
                } else if pre.len() == 1 && pre[0] == '~' {
                    Ok(Some(SpecInstr { direction: d, command: SpecCommand::Annihilate }))
                } else {
                    Err(L3XParseError::BadCommand)
                }
            },
        }
    }
}

/// The canonical rendering of an instruction view.
pub open spec fn iv_fmt(iv: InstrView) -> Seq<char> {
    let cmd = match iv.command {
        CmdView::Multiply(s) => dec_str(value_of(s)),
        CmdView::Duplicate => seq!['%'],
        CmdView::Queue => seq!['&'],
        CmdView::Annihilate => seq!['~'],
    };
    cmd.push(canon_dir_char(iv.direction))
}

/// The canonical rendering of a parsed instruction.
pub open spec fn spec_format_instr(si: SpecInstr) -> Seq<char> {
    let cmd = match si.command {
        SpecCommand::MulBy(v) => dec_str(v),
        SpecCommand::Duplicate => seq!['%'],
        SpecCommand::Queue => seq!['&'],
        SpecCommand::Annihilate => seq!['~'],
    };
    cmd.push(canon_dir_char(si.direction))
}

/// The canonical form of instruction text that parses: trimmed, the
/// direction letter upper-cased to its main letter, and a numeric command
/// re-rendered without leading zeros.
pub open spec fn canonical_text(raw: Seq<char>) -> Seq<char>
    recommends
        spec_parse_maybe(raw) matches Ok(Some(_)),
{
    let t = spec_trim(raw);
    let pre = t.drop_last();
    let cmd = if pre.len() > 0 && all_digits(pre) {
        dec_str(digits_value(pre))
    } else {
        pre
    };
    match dir_of_char(t.last()) {
        Some(d) => cmd.push(canon_dir_char(d)),
        None => t,
    }
}

/// Round trip: formatting a parsed instruction gives the canonical form of
/// the text it was parsed from.
pub proof fn lemma_parse_format_round_trip(raw: Seq<char>, si: SpecInstr)
    requires
        spec_parse_maybe(raw) == Ok::<Option<SpecInstr>, L3XParseError>(Some(si)),
    ensures
        spec_format_instr(si) == canonical_text(raw),
{
    let t = spec_trim(raw);
    let pre = t.drop_last();
    assert(t.len() > 0);
    match dir_of_char(t.last()) {
        None => {
            assert(false);
        },
        Some(d) => {
            if pre.len() > 0 && all_digits(pre) {
            } else if pre.len() == 1 {
                assert(spec_format_instr(si) == pre.push(canon_dir_char(d))) by {
                    assert(seq![pre[0]] =~= pre);
                }
            } else {
                assert(false);
            }
        },
    }
}

/// The parsed instruction carries the same direction and, for a multiplier,
/// a well-formed register value equal to the numeral.
pub open spec fn instr_matches(x: &L3X, si: SpecInstr) -> bool {
    &&& x.direction == si.direction
    &&& match x.command {
        L3XCommand::Multiply(r) => wf_factors(r@) && si.command == SpecCommand::MulBy(value_of(r@)),
        L3XCommand::Duplicate => si.command == SpecCommand::Duplicate,
        L3XCommand::Queue => si.command == SpecCommand::Queue,
        L3XCommand::Annihilate => si.command == SpecCommand::Annihilate,
    }
}

impl L3X {
    /// Every register value stored in the instruction is normalized.
    pub open spec fn wf(&self) -> bool {
        match self.command {
            L3XCommand::Multiply(r) => wf_factors(r@),
            _ => true,
        }
    }

    /// The rendering of this instruction.
    pub open spec fn fmt_of(&self) -> Seq<char> {
        iv_fmt(self.deep_view())
    }

    /// True exactly when the cell multiplies by the identity: a pass-through.
    pub fn is_one(&self) -> (r: bool)
        ensures
            r == self.spec_is_one(),
    {
        match &self.command {
            L3XCommand::Multiply(reg) => reg.is_one(),
            _ => false,
        }
    }

    pub open spec fn spec_is_one(&self) -> bool {
        match self.command {
            L3XCommand::Multiply(r) => r@.len() == 0,
            _ => false,
        }
    }

    /// The exit ports of this cell, per the command semantics: a pass-through
    /// multiplier, a queue and an annihilator have only the major port; a real
    /// multiplier adds the minor port opposite it; a duplicator has two major
    /// ports.
    pub fn outputs(&self) -> (r: Vec<Output>)
        ensures
            r@ == self.spec_outputs(),
    {
        let mut v: Vec<Output> = Vec::new();
        match &self.command {
            L3XCommand::Multiply(reg) => {
                if reg.is_one() {
                    v.push(Output::Major(self.direction));
                } else {
                    v.push(Output::Major(self.direction));
                    v.push(Output::Minor(self.direction.opposite()));
                }
            },
            L3XCommand::Queue => {
                v.push(Output::Major(self.direction));
            },
            L3XCommand::Annihilate => {
                v.push(Output::Major(self.direction));
            },
            L3XCommand::Duplicate => {
                v.push(Output::Major(self.direction));
                v.push(Output::Major(self.direction.opposite()));
            },
        }
        proof {
            assert(v@ =~= self.spec_outputs());
        }
        v
    }

    pub open spec fn spec_outputs(&self) -> Seq<Output> {
        match self.command {
            L3XCommand::Multiply(r) => if r@.len() == 0 {
                seq![Output::Major(self.direction)]
            } else {
                seq![
                    Output::Major(self.direction),
                    Output::Minor(self.direction.spec_opposite()),
                ]
            },
            L3XCommand::Queue => seq![Output::Major(self.direction)],
            L3XCommand::Annihilate => seq![Output::Major(self.direction)],
            L3XCommand::Duplicate => seq![
                Output::Major(self.direction),
                Output::Major(self.direction.spec_opposite()),
            ],
        }
    }

    /// A copy of this instruction.
    pub fn duplicate(&self) -> (r: L3X)
        ensures
            r.direction == self.direction,
            match (&r.command, &self.command) {
                (L3XCommand::Multiply(a), L3XCommand::Multiply(b)) => a@ == b@ && a.0@ == b.0@,
                (a, b) => a == b,
            },
            r.fmt_of() == self.fmt_of(),
            r.wf() == self.wf(),
            r.spec_is_one() == self.spec_is_one(),
    {
        let command = match &self.command {
            L3XCommand::Multiply(reg) => L3XCommand::Multiply(reg.duplicate()),
            L3XCommand::Duplicate => L3XCommand::Duplicate,
            L3XCommand::Queue => L3XCommand::Queue,
            L3XCommand::Annihilate => L3XCommand::Annihilate,
        };
        L3X { direction: self.direction, command }
    }

    /// Renders the instruction in its canonical text form.
    pub fn to_string(&self) -> (r: String)
        requires
            self.wf(),
        ensures
            r@ == self.fmt_of(),
    {
        let mut out: String;
        match &self.command {
            L3XCommand::Multiply(reg) => {
                out = reg.to_decimal_string();
            },
            L3XCommand::Duplicate => {
                out = String::new();
                push_char(&mut out, '%');
                proof {
                    assert(out@ =~= seq!['%']);
                }
            },
            L3XCommand::Queue => {
                out = String::new();
                push_char(&mut out, '&');
                proof {
                    assert(out@ =~= seq!['&']);
                }
            },
            L3XCommand::Annihilate => {
                out = String::new();
                push_char(&mut out, '~');
                proof {
                    assert(out@ =~= seq!['~']);
                }
            },
        }
        let d = match self.direction {
            Direction::Up => 'U',
            Direction::Down => 'D',
            Direction::Left => 'L',
            Direction::Right => 'R',
        };
        push_char(&mut out, d);
        out
    }

    /// Parses instruction text; empty or all-whitespace text parses to
    /// "no instruction" rather than an error.
    #[verifier::loop_isolation(false)]
    pub fn parse_maybe(text: &str) -> (r: Result<Option<L3X>, L3XParseError>)
        ensures
            match r {
                Ok(opt) => match opt {
                    None => spec_parse_maybe(text@) == Ok::<Option<SpecInstr>, L3XParseError>(None),
                    Some(x) => {
                        &&& x.wf()
                        &&& spec_parse_maybe(text@) matches Ok(oo) && oo matches Some(si)
                            && instr_matches(&x, si)
                    },
                },
                Err(e) => spec_parse_maybe(text@) == Err::<Option<SpecInstr>, _>(e),
            },
    {
        let n0 = text.unicode_len();
        // trim leading and trailing whitespace by index
        let mut lo: usize = 0;
        while lo < n0 && char_is_space(text.get_char(lo))
            invariant
                n0 == text@.len(),
                lo <= n0,
                forall|i: int| 0 <= i < lo ==> is_space(#[trigger] text@[i]),
            decreases n0 - lo,
        {
            lo += 1;
        }
        proof {
            lemma_trim_start_skip(text@, lo as int);
        }
        if lo == n0 {
            proof {
                assert(text@.skip(n0 as int) =~= Seq::<char>::empty());
                assert(spec_trim(text@).len() == 0);
            }
            return Ok(None);
        }
        let mut hi: usize = n0;
        while hi > lo && char_is_space(text.get_char(hi - 1))
            invariant
                n0 == text@.len(),
                lo <= hi <= n0,
                lo < n0,
                !is_space(text@[lo as int]),
                forall|i: int| hi <= i < n0 ==> is_space(#[trigger] text@[i]),
            decreases hi,
        {
            hi -= 1;
        }
        proof {
            assert(hi > lo);
            let st = text@.skip(lo as int);
            lemma_trim_end_take(st, hi - lo);
            assert(st.take(hi - lo) =~= text@.subrange(lo as int, hi as int));
            assert(spec_trim(text@) == text@.subrange(lo as int, hi as int));
        }
        let ghost t = text@.subrange(lo as int, hi as int);
        let ghost pre = t.drop_last();
        proof {
            assert(t.len() > 0);
            assert(t.last() == text@[hi - 1]);
            assert(pre =~= text@.subrange(lo as int, hi - 1));
        }
        let c = text.get_char(hi - 1);
        let dir_opt = dir_from_char(c);
        let d: Direction;
        match dir_opt {
            Some(dd) => {
                d = dd;
            },
            None => {
                return Err(L3XParseError::BadDirection);
            },
        }
        // scan the command prefix: alphabetic characters are unaccounted for,
        // and the prefix is numeric only if every character is a digit
        let mut i: usize = lo;
        let mut numeric: bool = true;
        while i < hi - 1
            invariant
                n0 == text@.len(),
                lo <= i <= hi - 1,
                hi <= n0,
                lo < hi,
                t == text@.subrange(lo as int, hi as int),
                pre == t.drop_last(),
                pre =~= text@.subrange(lo as int, hi - 1),
                forall|k: int| 0 <= k < i - lo ==> !is_alpha(#[trigger] pre[k]),
                numeric == all_digits(pre.take(i - lo)),
            decreases hi - i,
        {
            let ci = text.get_char(i);
            proof {
                assert(pre[i - lo] == text@[i as int]);
            }
            if char_is_alpha(ci) {
                proof {
                    assert(is_alpha(pre[i - lo]));
                    assert(0 <= i - lo < pre.len());
                    assert(exists|k: int| 0 <= k < pre.len() && is_alpha(#[trigger] pre[k]));
                    assert(spec_trim(text@) == t);
                    assert(dir_of_char(t.last()) == Some(d));
                    assert(spec_parse_maybe(text@) == Err::<Option<SpecInstr>, L3XParseError>(
                        L3XParseError::UnaccountedCharacters,
                    ));
                }
                return Err(L3XParseError::UnaccountedCharacters);
            }
            let ghost kpre = pre.take(i - lo);
            let ghost kpre1 = pre.take(i + 1 - lo);
            proof {
                assert(forall|k: int| 0 <= k < kpre.len() ==> kpre1[k] == kpre[k]);
                assert(kpre1[i - lo] == pre[i - lo]);
                assert(forall|k: int| 0 <= k < kpre1.len() ==> kpre1[k] == pre[k]);
            }
            if !char_is_digit(ci) {
                numeric = false;
                proof {
                    assert(!is_digit(kpre1[i - lo]));
                    assert(!all_digits(kpre1));
                }
            } else {
                proof {
                    if numeric {
                        assert(all_digits(kpre1));
                    } else {
                        let w = choose|k: int| 0 <= k < kpre.len() && !is_digit(#[trigger] kpre[k]);
                        assert(!is_digit(kpre1[w]));
                        assert(!all_digits(kpre1));
                    }
                }
            }
            i += 1;
        }
        proof {
            assert(pre.take(pre.len() as int) =~= pre);
            assert(forall|k: int| 0 <= k < pre.len() ==> !is_alpha(#[trigger] pre[k]));
        }
        if hi - 1 == lo {
            proof {
                assert(pre.len() == 0);
                assert(!(pre.len() > 0 && all_digits(pre)));
            }
            return Err(L3XParseError::WrongLength);
        }
        if numeric {
            let sub = text.substring_char(lo, hi - 1);
            proof {
                assert(sub@ == pre);
            }
            match Registers::parse(sub) {
                Ok(reg) => {
                    let x = L3X { direction: d, command: L3XCommand::Multiply(reg) };
                    return Ok(Some(x));
                },
                Err(RegisterParseError::Zero) => {
                    return Err(L3XParseError::ZeroCommand);
                },
                Err(RegisterParseError::NumberOverflow) => {
                    return Err(L3XParseError::NumberOverflow);
                },
                Err(RegisterParseError::Malformed) => {
                    proof {
                        assert(false);
                    }
                    return Err(L3XParseError::BadCommand);
                },
            }
        }
        if hi - 1 - lo == 1 {
            let c0 = text.get_char(lo);
            proof {
                assert(pre[0] == text@[lo as int]);
                assert(pre.len() == 1);
            }
            if c0 == '%' {
                return Ok(Some(L3X { direction: d, command: L3XCommand::Duplicate }));
            } else if c0 == '&' {
                return Ok(Some(L3X { direction: d, command: L3XCommand::Queue }));
            } else if c0 == '~' {
                return Ok(Some(L3X { direction: d, command: L3XCommand::Annihilate }));
            } else {
                return Err(L3XParseError::BadCommand);
            }
        }
        Err(L3XParseError::BadCommand)
    }

    /// Parses instruction text that must hold an instruction: empty text is
    /// the `Empty` error.
    pub fn parse(text: &str) -> (r: Result<L3X, L3XParseError>)
        ensures
            match r {
                Ok(x) => {
                    &&& x.wf()
                    &&& spec_parse_maybe(text@) matches Ok(oo) && oo matches Some(si)
                        && instr_matches(&x, si)
                },
                Err(L3XParseError::Empty) => spec_parse_maybe(text@) == Ok::<Option<SpecInstr>, L3XParseError>(None),
                Err(e) => spec_parse_maybe(text@) == Err::<Option<SpecInstr>, _>(e),
            },
    {
        match Self::parse_maybe(text) {
            Ok(Some(x)) => Ok(x),
            Ok(None) => Err(L3XParseError::Empty),
            Err(e) => Err(e),
        }
    }
}

/// Parses instruction text; empty text is "no instruction".
pub fn parse_instruction(text: &str) -> (r: Result<Option<L3X>, L3XParseError>)
    ensures
        match r {
            Ok(opt) => match opt {
                None => spec_parse_maybe(text@) == Ok::<Option<SpecInstr>, L3XParseError>(None),
                Some(x) => {
                    &&& x.wf()
                    &&& spec_parse_maybe(text@) matches Ok(oo) && oo matches Some(si)
                        && instr_matches(&x, si)
                },
            },
            Err(e) => spec_parse_maybe(text@) == Err::<Option<SpecInstr>, _>(e),
        },
{
    L3X::parse_maybe(text)
}

/// Renders an instruction in its canonical text form.
pub fn format_instruction(x: &L3X) -> (r: String)
    requires
        x.wf(),
    ensures
        r@ == x.fmt_of(),
{
    x.to_string()
}

/// An instruction that matches its parse formats back to the canonical text.
pub proof fn lemma_format_matches(x: &L3X, si: SpecInstr)
    requires
        x.wf(),
        instr_matches(x, si),
    ensures
        x.fmt_of() == spec_format_instr(si),
{
}

fn char_is_space(c: char) -> (r: bool)
    ensures
        r == is_space(c),
{
    let u = c as u32;
    (0x9 <= u && u <= 0xD) || u == 0x20 || u == 0x85 || u == 0xA0 || u == 0x1680 || (0x2000 <= u
        && u <= 0x200A) || u == 0x2028 || u == 0x2029 || u == 0x202F || u == 0x205F || u == 0x3000
}

fn char_is_alpha(c: char) -> (r: bool)
    ensures
        r == is_alpha(c),
{
    let u = c as u32;
    (97 <= u && u <= 122) || (65 <= u && u <= 90)
}

fn char_is_digit(c: char) -> (r: bool)
    ensures
        r == is_digit(c),
{
    let u = c as u32;
    48 <= u && u <= 57
}

fn dir_from_char(c: char) -> (r: Option<Direction>)
    ensures
        r == dir_of_char(c),
{
    if c == 'u' || c == 'U' || c == 'n' || c == 'N' {
        Some(Direction::Up)
    } else if c == 'd' || c == 'D' || c == 's' || c == 'S' {
        Some(Direction::Down)
    } else if c == 'l' || c == 'L' || c == 'w' || c == 'W' {
        Some(Direction::Left)
    } else if c == 'r' || c == 'R' || c == 'e' || c == 'E' {
        Some(Direction::Right)
    } else {
        None
    }
}

proof fn lemma_trim_start_skip(s: Seq<char>, k: int)
    requires
        0 <= k <= s.len(),
        forall|i: int| 0 <= i < k ==> is_space(#[trigger] s[i]),
        k == s.len() || !is_space(s[k]),
    ensures
        trim_start(s) == s.skip(k),
    decreases k,
{
    if k == 0 {
        assert(s.skip(0) =~= s);
    } else {
        assert(is_space(s[0]));
        let st = s.drop_first();
        assert(st =~= s.skip(1));
        assert(forall|i: int| 0 <= i < k - 1 ==> st[i] == s[i + 1]);
        lemma_trim_start_skip(st, k - 1);
        assert(st.skip(k - 1) =~= s.skip(k));
    }
}

proof fn lemma_trim_end_take(s: Seq<char>, k: int)
    requires
        0 <= k <= s.len(),
        forall|i: int| k <= i < s.len() ==> is_space(#[trigger] s[i]),
        k == 0 || !is_space(s[k - 1]),
    ensures
        trim_end(s) == s.take(k),
    decreases s.len() - k,
{
    if k == s.len() {
        assert(s.take(k) =~= s);
        if s.len() > 0 {
            assert(!is_space(s.last()));
        }
    } else {
        assert(is_space(s.last()));
        let st = s.drop_last();
        assert(forall|i: int| 0 <= i < st.len() ==> st[i] == s[i]);
        lemma_trim_end_take(st, k);
        assert(st.take(k) =~= s.take(k));
    }
}

/// The exit ports of an instruction view.
pub open spec fn iv_outputs(iv: InstrView) -> Seq<Output> {
    match iv.command {
        CmdView::Multiply(s) => if s.len() == 0 {
            seq![Output::Major(iv.direction)]
        } else {
            seq![Output::Major(iv.direction), Output::Minor(iv.direction.spec_opposite())]
        },
        CmdView::Queue => seq![Output::Major(iv.direction)],
        CmdView::Annihilate => seq![Output::Major(iv.direction)],
        CmdView::Duplicate => seq![
            Output::Major(iv.direction),
            Output::Major(iv.direction.spec_opposite()),
        ],
    }
}

/// Whether some exit port of the instruction points in direction `d`.
pub open spec fn iv_outputs_toward(iv: InstrView, d: Direction) -> bool {
    exists|i: int| 0 <= i < iv_outputs(iv).len() && (#[trigger] iv_outputs(iv)[i]).spec_direction()
        == d
}

/// Whether the neighbor of `loc` toward `d` feeds into `loc`: it lies under
/// the grid bounds and one of its exit ports points back.
pub open spec fn feeds_from(
    g: Map<(int, int), InstrView>,
    dims: (int, int),
    loc: (int, int),
    d: Direction,
) -> bool {
    let nb = crate::coords::move_loc(loc, d);
    &&& nb.0 < dims.0
    &&& nb.1 < dims.1
    &&& g.contains_key(nb)
    &&& iv_outputs_toward(g[nb], d.spec_opposite())
}

/// The directions from which this cell is fed, in the fixed order
/// up, down, left, right.
pub open spec fn spec_inputs(
    g: Map<(int, int), InstrView>,
    dims: (int, int),
    loc: (int, int),
) -> Seq<Direction> {
    let up = if feeds_from(g, dims, loc, Direction::Up) {
        seq![Direction::Up]
    } else {
        Seq::empty()
    };
    let down = if feeds_from(g, dims, loc, Direction::Down) {
        seq![Direction::Down]
    } else {
        Seq::empty()
    };
    let left = if feeds_from(g, dims, loc, Direction::Left) {
        seq![Direction::Left]
    } else {
        Seq::empty()
    };
    let right = if feeds_from(g, dims, loc, Direction::Right) {
        seq![Direction::Right]
    } else {
        Seq::empty()
    };
    up + down + left + right
}

/// Whether some exit port of this instruction points in direction `d`.
fn outputs_toward(x: &L3X, d: Direction) -> (r: bool)
    ensures
        r == iv_outputs_toward(x.deep_view(), d),
{
    let r = match &x.command {
        L3XCommand::Multiply(reg) => {
            if reg.is_one() {
                x.direction == d
            } else {
                x.direction == d || x.direction.opposite() == d
            }
        },
        L3XCommand::Duplicate => x.direction == d || x.direction.opposite() == d,
        L3XCommand::Queue => x.direction == d,
        L3XCommand::Annihilate => x.direction == d,
    };
    proof {
        let iv = x.deep_view();
        let outs = iv_outputs(iv);
        if r {
            assert(exists|i: int|
                0 <= i < outs.len() && (#[trigger] outs[i]).spec_direction() == d) by {
                if outs[0].spec_direction() == d {
                    assert(outs[0].spec_direction() == d);
                } else {
                    assert(outs[1].spec_direction() == d);
                }
            }
        } else {
            if exists|i: int| 0 <= i < outs.len() && (#[trigger] outs[i]).spec_direction() == d {
                let i = choose|i: int|
                    0 <= i < outs.len() && (#[trigger] outs[i]).spec_direction() == d;
                assert(false);
            }
        }
    }
    r
}

impl L3X {
    /// The directions from which this cell is fed: each neighbor under the
    /// grid bounds with an exit port pointing back at this cell.
    pub fn inputs(
        &self,
        matrix: &crate::coord_map::CoordMap<L3X>,
        dims: crate::coords::Coord,
        location: crate::coords::Coord,
    ) -> (r: Vec<Direction>)
        requires
            matrix.inv(),
            -crate::coords::MAX_DIM - 2 <= location.x <= crate::coords::MAX_DIM + 2,
            -crate::coords::MAX_DIM - 2 <= location.y <= crate::coords::MAX_DIM + 2,
        ensures
            r@ == spec_inputs(matrix@, crate::coords::loc_of(dims), crate::coords::loc_of(location)),
    {
        let mut v: Vec<Direction> = Vec::new();
        let dirs = Direction::all();
        let ghost g = matrix@;
        let ghost dv = crate::coords::loc_of(dims);
        let ghost lv = crate::coords::loc_of(location);
        let mut k: usize = 0;
        while k < 4
            invariant
                k <= 4,
                dirs@ == seq![Direction::Up, Direction::Down, Direction::Left, Direction::Right],
                matrix.inv(),
                g == matrix@,
                dv == crate::coords::loc_of(dims),
                lv == crate::coords::loc_of(location),
                -crate::coords::MAX_DIM - 2 <= location.x <= crate::coords::MAX_DIM + 2,
                -crate::coords::MAX_DIM - 2 <= location.y <= crate::coords::MAX_DIM + 2,
                v@ == spec_inputs_prefix(g, dv, lv, k as int),
            decreases 4 - k,
        {
            let d = dirs[k];
            let nb = location.step(d);
            let mut feeds = false;
            if nb.x < dims.x && nb.y < dims.y {
                match matrix.get(nb) {
                    Some(x) => {
                        feeds = outputs_toward(x, d.opposite());
                    },
                    None => (),
                }
            }
            proof {
                assert(feeds == feeds_from(g, dv, lv, dirs@[k as int]));
            }
            if feeds {
                v.push(d);
            }
            proof {
                assert(v@ =~= spec_inputs_prefix(g, dv, lv, k + 1));
            }
            k += 1;
        }
        proof {
            assert(spec_inputs_prefix(g, dv, lv, 4) =~= spec_inputs(g, dv, lv));
        }
        v
    }
}

/// The first `k` direction checks of `spec_inputs`, in order.
pub open spec fn spec_inputs_prefix(
    g: Map<(int, int), InstrView>,
    dims: (int, int),
    loc: (int, int),
    k: int,
) -> Seq<Direction> {
    let up = if k >= 1 && feeds_from(g, dims, loc, Direction::Up) {
        seq![Direction::Up]
    } else {
        Seq::empty()
    };
    let down = if k >= 2 && feeds_from(g, dims, loc, Direction::Down) {
        seq![Direction::Down]
    } else {
        Seq::empty()
    };
    let left = if k >= 3 && feeds_from(g, dims, loc, Direction::Left) {
        seq![Direction::Left]
    } else {
        Seq::empty()
    };
    let right = if k >= 4 && feeds_from(g, dims, loc, Direction::Right) {
        seq![Direction::Right]
    } else {
        Seq::empty()
    };
    up + down + left + right
}

/// Whether the neighbor of `loc` toward `d` actively feeds into `loc`: its
/// instruction lies under the bounds and one of its active exit ports, at
/// one less recursion depth, points back.
pub open spec fn feeds_active_from(
    g: Map<(int, int), InstrView>,
    dims: (int, int),
    loc: (int, int),
    d: Direction,
    depth: nat,
) -> bool
    decreases depth, 4int,
{
    let nb = crate::coords::move_loc(loc, d);
    &&& nb.0 < dims.0
    &&& nb.1 < dims.1
    &&& g.contains_key(nb)
    &&& exists|i: int|
        0 <= i < spec_active_outputs(g[nb], g, dims, nb, depth).len() && (
        #[trigger] spec_active_outputs(g[nb], g, dims, nb, depth)[i]).spec_direction()
            == d.spec_opposite()
}

/// The active exit ports of a cell: a real multiplier shows its minor port
/// only while some active input other than the backward path feeds it.
pub open spec fn spec_active_outputs(
    iv: InstrView,
    g: Map<(int, int), InstrView>,
    dims: (int, int),
    loc: (int, int),
    depth: nat,
) -> Seq<Output>
    decreases depth, 3int,
{
    match iv.command {
        CmdView::Multiply(s) => if s.len() == 0 {
            iv_outputs(iv)
        } else {
            if spec_minor_is_active(iv, g, dims, loc, depth) {
                seq![Output::Major(iv.direction), Output::Minor(iv.direction.spec_opposite())]
            } else {
                seq![Output::Major(iv.direction)]
            }
        },
        _ => iv_outputs(iv),
    }
}

/// Whether a multiplier's minor port is live: some active input comes from
/// a direction other than the one opposite its facing.
pub open spec fn spec_minor_is_active(
    iv: InstrView,
    g: Map<(int, int), InstrView>,
    dims: (int, int),
    loc: (int, int),
    depth: nat,
) -> bool
    decreases depth, 2int,
{
    exists|i: int|
        0 <= i < spec_active_inputs(g, dims, loc, depth).len() && #[trigger] spec_active_inputs(
            g,
            dims,
            loc,
            depth,
        )[i] != iv.direction.spec_opposite()
}

/// The directions actively feeding a cell, to the given recursion depth; at
/// depth zero this is the plain input analysis.
pub open spec fn spec_active_inputs(
    g: Map<(int, int), InstrView>,
    dims: (int, int),
    loc: (int, int),
    depth: nat,
) -> Seq<Direction>
    decreases depth, 1int,
{
    if depth == 0 {
        spec_inputs(g, dims, loc)
    } else {
        spec_active_inputs_prefix(g, dims, loc, depth, 4)
    }
}

/// The first `k` direction checks of the active-input analysis, in order.
pub open spec fn spec_active_inputs_prefix(
    g: Map<(int, int), InstrView>,
    dims: (int, int),
    loc: (int, int),
    depth: nat,
    k: int,
) -> Seq<Direction>
    decreases depth, 0int,
{
    if depth == 0 {
        Seq::empty()
    } else {
        let sub = (depth - 1) as nat;
        let up = if k >= 1 && feeds_active_from(g, dims, loc, Direction::Up, sub) {
            seq![Direction::Up]
        } else {
            Seq::empty()
        };
        let down = if k >= 2 && feeds_active_from(g, dims, loc, Direction::Down, sub) {
            seq![Direction::Down]
        } else {
            Seq::empty()
        };
        let left = if k >= 3 && feeds_active_from(g, dims, loc, Direction::Left, sub) {
            seq![Direction::Left]
        } else {
            Seq::empty()
        };
        let right = if k >= 4 && feeds_active_from(g, dims, loc, Direction::Right, sub) {
            seq![Direction::Right]
        } else {
            Seq::empty()
        };
        up + down + left + right
    }
}

impl L3X {
    /// The active exit ports of this cell at the given recursion depth.
    pub fn active_outputs(
        &self,
        matrix: &crate::coord_map::CoordMap<L3X>,
        dims: crate::coords::Coord,
        location: crate::coords::Coord,
        recursion_depth: usize,
    ) -> (r: Vec<Output>)
        requires
            matrix.inv(),
            -crate::coords::MAX_DIM - 2 + recursion_depth <= location.x <= crate::coords::MAX_DIM
                + 2 - recursion_depth,
            -crate::coords::MAX_DIM - 2 + recursion_depth <= location.y <= crate::coords::MAX_DIM
                + 2 - recursion_depth,
        ensures
            r@ == spec_active_outputs(
                self.deep_view(),
                matrix@,
                crate::coords::loc_of(dims),
                crate::coords::loc_of(location),
                recursion_depth as nat,
            ),
        decreases recursion_depth, 3int,
    {
        let is_real_multiplier = match &self.command {
            L3XCommand::Multiply(reg) => !reg.is_one(),
            _ => false,
        };
        if is_real_multiplier {
            if self.minor_is_active(matrix, dims, location, recursion_depth) {
                let mut v: Vec<Output> = Vec::new();
                v.push(Output::Major(self.direction));
                v.push(Output::Minor(self.direction.opposite()));
                proof {
                    assert(v@ =~= spec_active_outputs(
                        self.deep_view(),
                        matrix@,
                        crate::coords::loc_of(dims),
                        crate::coords::loc_of(location),
                        recursion_depth as nat,
                    ));
                }
                v
            } else {
                let mut v: Vec<Output> = Vec::new();
                v.push(Output::Major(self.direction));
                proof {
                    assert(v@ =~= spec_active_outputs(
                        self.deep_view(),
                        matrix@,
                        crate::coords::loc_of(dims),
                        crate::coords::loc_of(location),
                        recursion_depth as nat,
                    ));
                }
                v
            }
        } else {
            let v = self.outputs();
            proof {
                assert(v@ == iv_outputs(self.deep_view()));
            }
            v
        }
    }

    /// Whether this multiplier's minor port is live at the given depth.
    #[verifier::loop_isolation(false)]
    #[verifier::rlimit(100)]
    #[verifier::spinoff_prover]
    pub fn minor_is_active(
        &self,
        matrix: &crate::coord_map::CoordMap<L3X>,
        dims: crate::coords::Coord,
        location: crate::coords::Coord,
        recursion_depth: usize,
    ) -> (r: bool)
        requires
            matrix.inv(),
            -crate::coords::MAX_DIM - 2 + recursion_depth <= location.x <= crate::coords::MAX_DIM
                + 2 - recursion_depth,
            -crate::coords::MAX_DIM - 2 + recursion_depth <= location.y <= crate::coords::MAX_DIM
                + 2 - recursion_depth,
        ensures
            r == spec_minor_is_active(
                self.deep_view(),
                matrix@,
                crate::coords::loc_of(dims),
                crate::coords::loc_of(location),
                recursion_depth as nat,
            ),
        decreases recursion_depth, 2int,
    {
        let ins = self.active_inputs(matrix, dims, location, recursion_depth);
        let opp = self.direction.opposite();
        let ghost inseq = spec_active_inputs(
            matrix@,
            crate::coords::loc_of(dims),
            crate::coords::loc_of(location),
            recursion_depth as nat,
        );
        let n = ins.len();
        let mut i: usize = 0;
        while i < n
            invariant
                i <= n,
                n == ins@.len(),
                ins@ == inseq,
                opp == self.direction.spec_opposite(),
                forall|k: int| 0 <= k < i ==> #[trigger] inseq[k] == opp,
            decreases n - i,
        {
            if !(ins[i] == opp) {
                proof {
                    let g = matrix@;
                    let dv = crate::coords::loc_of(dims);
                    let lv = crate::coords::loc_of(location);
                    let dd = recursion_depth as nat;
                    assert(spec_active_inputs(g, dv, lv, dd)[i as int] != opp);
                    assert(spec_minor_is_active(self.deep_view(), g, dv, lv, dd));
                }
                return true;
            }
            i += 1;
        }
        proof {
            let g = matrix@;
            let dv = crate::coords::loc_of(dims);
            let lv = crate::coords::loc_of(location);
            let dd = recursion_depth as nat;
            if spec_minor_is_active(self.deep_view(), g, dv, lv, dd) {
                let k = choose|k: int|
                    0 <= k < spec_active_inputs(g, dv, lv, dd).len()
                        && #[trigger] spec_active_inputs(g, dv, lv, dd)[k] != self.direction.spec_opposite();
                assert(inseq[k] != opp);
                assert(false);
            }
        }
        false
    }

    /// The directions actively feeding this cell at the given depth.
    #[verifier::loop_isolation(false)]
    pub fn active_inputs(
        &self,
        matrix: &crate::coord_map::CoordMap<L3X>,
        dims: crate::coords::Coord,
        location: crate::coords::Coord,
        recursion_depth: usize,
    ) -> (r: Vec<Direction>)
        requires
            matrix.inv(),
            -crate::coords::MAX_DIM - 2 + recursion_depth <= location.x <= crate::coords::MAX_DIM
                + 2 - recursion_depth,
            -crate::coords::MAX_DIM - 2 + recursion_depth <= location.y <= crate::coords::MAX_DIM
                + 2 - recursion_depth,
        ensures
            r@ == spec_active_inputs(
                matrix@,
                crate::coords::loc_of(dims),
                crate::coords::loc_of(location),
                recursion_depth as nat,
            ),
        decreases recursion_depth, 1int,
    {
        if recursion_depth == 0 {
            return self.inputs(matrix, dims, location);
        }
        let ghost g = matrix@;
        let ghost dv = crate::coords::loc_of(dims);
        let ghost lv = crate::coords::loc_of(location);
        let ghost depth = recursion_depth as nat;
        let mut v: Vec<Direction> = Vec::new();
        let dirs = Direction::all();
        let mut k: usize = 0;
        while k < 4
            invariant
                k <= 4,
                recursion_depth >= 1,
                dirs@ == seq![Direction::Up, Direction::Down, Direction::Left, Direction::Right],
                matrix.inv(),
                g == matrix@,
                dv == crate::coords::loc_of(dims),
                lv == crate::coords::loc_of(location),
                depth == recursion_depth as nat,
                -crate::coords::MAX_DIM - 2 + recursion_depth <= location.x
                    <= crate::coords::MAX_DIM + 2 - recursion_depth,
                -crate::coords::MAX_DIM - 2 + recursion_depth <= location.y
                    <= crate::coords::MAX_DIM + 2 - recursion_depth,
                v@ == spec_active_inputs_prefix(g, dv, lv, depth, k as int),
            decreases 4 - k,
        {
            let d = dirs[k];
            let nb = location.step(d);
            let mut feeds = false;
            if nb.x < dims.x && nb.y < dims.y {
                match matrix.get(nb) {
                    Some(x) => {
                        let outs = x.active_outputs(matrix, dims, nb, recursion_depth - 1);
                        let ghost outseq = spec_active_outputs(
                            x.deep_view(),
                            g,
                            dv,
                            crate::coords::loc_of(nb),
                            (depth - 1) as nat,
                        );
                        let want = d.opposite();
                        let n = outs.len();
                        let mut i: usize = 0;
                        while i < n && !feeds
                            invariant
                                i <= n,
                                n == outs@.len(),
                                outs@ == outseq,
                                want == d.spec_opposite(),
                                feeds ==> exists|q: int|
                                    0 <= q < outseq.len() && (
                                    #[trigger] outseq[q]).spec_direction() == want,
                                !feeds ==> forall|q: int|
                                    0 <= q < i ==> (#[trigger] outseq[q]).spec_direction() != want,
                            decreases n - i,
                        {
                            if outs[i].direction() == want {
                                feeds = true;
                                proof {
                                    assert(outseq[i as int].spec_direction() == want);
                                }
                            }
                            i += 1;
                        }
                        proof {
                            if !feeds {
                                if exists|q: int|
                                    0 <= q < outseq.len() && (
                                    #[trigger] outseq[q]).spec_direction() == want {
                                    let q = choose|q: int|
                                        0 <= q < outseq.len() && (
                                        #[trigger] outseq[q]).spec_direction() == want;
                                    assert(false);
                                }
                            }
                            assert(g[crate::coords::loc_of(nb)] == x.deep_view());
                        }
                    },
                    None => (),
                }
            }
            proof {
                assert(feeds == feeds_active_from(g, dv, lv, dirs@[k as int], (depth - 1) as nat));
            }
            if feeds {
                v.push(d);
            }
            proof {
                assert(v@ =~= spec_active_inputs_prefix(g, dv, lv, depth, k + 1));
            }
            k += 1;
        }
        proof {
            assert(spec_active_inputs_prefix(g, dv, lv, depth, 4) == spec_active_inputs(
                g,
                dv,
                lv,
                depth,
            ));
        }
        v
    }
}

} // verus!
