//! Loading a program: the code is checked cell by cell against the
//! instruction set, stored, and the rest of memory is generated from it.

use crate::cipher::decode_spec;
use crate::machine::Interpreter;
use crate::state::{lemma_end_halts_at_once, Outcome, Run, State};
use crate::trits::{crz_spec, lemma_crz_range, lemma_pow3_bounds};
use crate::word::{Word, MAX_INT};
use vstd::prelude::*;

verus! {

/// Why a program cannot be loaded.
#[derive(Debug, Clone, Copy, PartialEq, Eq, Structural)]
pub enum LoadError {
    /// A character does not select an instruction at the position where it
    /// stands; `op` is the opcode it selects there.
    InvalidOpCode { op: u8 },
    /// The code has more characters than the memory has cells.
    CodeTooLong,
    /// A character has a code that no word can hold.
    CharTooLarge,
}

/// The characters that count as whitespace: those with the Unicode property
/// `White_Space`.
pub open spec fn is_whitespace_spec(c: char) -> bool {
    let n = c as u32;
    ||| 0x09 <= n <= 0x0D
    ||| n == 0x20
    ||| n == 0x85
    ||| n == 0xA0
    ||| n == 0x1680
    ||| 0x2000 <= n <= 0x200A
    ||| n == 0x2028
    ||| n == 0x2029
    ||| n == 0x202F
    ||| n == 0x205F
    ||| n == 0x3000
}

/// The test that keeps the characters of a program that are code.
pub open spec fn is_code_char() -> spec_fn(char) -> bool {
    |c: char| !is_whitespace_spec(c)
}

/// The code of a program text: its characters without the whitespace.
pub open spec fn strip_whitespace_spec(s: Seq<char>) -> Seq<char> {
    s.filter(is_code_char())
}

/// The opcodes of the instruction set.
pub open spec fn is_legal_opcode(op: int) -> bool {
    op == 4 || op == 5 || op == 23 || op == 39 || op == 40 || op == 62 || op == 68 || op == 81
}

/// The code of a character as a number.
pub open spec fn char_code(c: char) -> int {
    c as u32 as int
}

/// The opcode that character `i` of the code selects at its position.
pub open spec fn shifted_opcode(code: Seq<char>, i: int) -> int {
    (char_code(code[i]) + i) % 94
}

/// Every character of the code selects an instruction where it stands.
pub open spec fn all_legal(code: Seq<char>) -> bool {
    forall|i: int| 0 <= i < code.len() ==> is_legal_opcode(#[trigger] shifted_opcode(code, i))
}

/// Character `i` is the first that selects no instruction where it stands.
pub open spec fn first_illegal(code: Seq<char>, i: int) -> bool {
    &&& 0 <= i < code.len()
    &&& !is_legal_opcode(shifted_opcode(code, i))
    &&& forall|j: int| 0 <= j < i ==> is_legal_opcode(#[trigger] shifted_opcode(code, j))
}

/// Every character of the code has a code that a word can hold.
pub open spec fn all_chars_fit(code: Seq<char>) -> bool {
    forall|i: int| 0 <= i < code.len() ==> char_code(#[trigger] code[i]) < 59049
}

/// The cell at address `i` of the memory that the code generates: the
/// character code where there is code, and beyond it the combination of the
/// two cells before. Where there is no cell before, zero stands in.
pub open spec fn image_cell(code: Seq<char>, i: nat) -> int
    decreases i,
{
    if i < code.len() {
        char_code(code[i as int])
    } else {
        let two_back = if i >= 2 {
            image_cell(code, (i - 2) as nat)
        } else {
            0
        };
        let one_back = if i >= 1 {
            image_cell(code, (i - 1) as nat)
        } else {
            0
        };
        crz_spec(two_back, one_back, 10)
    }
}

/// The memory that the code generates.
pub open spec fn memory_image(code: Seq<char>) -> Seq<int> {
    Seq::new(59049, |i: int| image_cell(code, i as nat))
}

/// What loading makes of the code: the memory it generates, or the reason
/// why it cannot be loaded. A character that selects no instruction comes
/// before every other reason, and the first such character is reported.
pub open spec fn load_spec(code: Seq<char>) -> Result<Seq<int>, LoadError> {
    if !all_legal(code) {
        let i = choose|i: int| first_illegal(code, i);
        Err(LoadError::InvalidOpCode { op: shifted_opcode(code, i) as u8 })
    } else if code.len() > 59049 {
        Err(LoadError::CodeTooLong)
    } else if !all_chars_fit(code) {
        Err(LoadError::CharTooLarge)
    } else {
        Ok(memory_image(code))
    }
}

/// How loading `code` relates the machine before and after to the result:
/// on success the result is the length of the code, the memory is the one
/// the code generates and the registers are as they were; on failure the
/// machine is as it was.
pub open spec fn loaded(
    before: State,
    code: Seq<char>,
    r: Result<usize, LoadError>,
    after: State,
) -> bool {
    match load_spec(code) {
        Ok(mem) => r == Ok::<usize, LoadError>(code.len() as usize) && after == (State {
            mem,
            ..before
        }),
        Err(e) => r == Err::<usize, LoadError>(e) && after == before,
    }
}

/// Only one character can be the first that selects no instruction.
pub proof fn lemma_first_illegal_unique(code: Seq<char>, i: int, j: int)
    requires
        first_illegal(code, i),
        first_illegal(code, j),
    ensures
        i == j,
{
}

/// Code with a character that selects no instruction fails to load, and the
/// opcode reported is that of the first such character.
pub proof fn lemma_illegal_code_fails(code: Seq<char>, i: int)
    requires
        first_illegal(code, i),
    ensures
        load_spec(code) == Err::<Seq<int>, LoadError>(
            LoadError::InvalidOpCode { op: shifted_opcode(code, i) as u8 },
        ),
{
    assert(!is_legal_opcode(shifted_opcode(code, i)));
    let k = choose|k: int| first_illegal(code, k);
    lemma_first_illegal_unique(code, i, k);
}

/// Code that fits the memory and whose characters all select instructions
/// loads, every cell it generates holds a word, and every cell beyond the
/// code is the combination of the two cells before it.
pub proof fn lemma_legal_code_loads(code: Seq<char>)
    requires
        all_legal(code),
        code.len() <= 59049,
        all_chars_fit(code),
    ensures
        load_spec(code) == Ok::<Seq<int>, LoadError>(memory_image(code)),
        forall|i: int| 0 <= i < 59049 ==> 0 <= #[trigger] memory_image(code)[i] < 59049,
        forall|i: int|
            code.len() <= i < 59049 && 2 <= i ==> #[trigger] memory_image(code)[i] == crz_spec(
                memory_image(code)[i - 2],
                memory_image(code)[i - 1],
                10,
            ),
{
    assert forall|i: int| 0 <= i < 59049 implies 0 <= #[trigger] memory_image(code)[i]
        < 59049 by {
        lemma_image_cell_range(code, i as nat);
    }
}

/// Every generated cell holds a word, as long as the characters fit.
pub proof fn lemma_image_cell_range(code: Seq<char>, i: nat)
    requires
        all_chars_fit(code),
    ensures
        0 <= image_cell(code, i) < 59049,
{
    lemma_pow3_bounds(10, 10);
    if i >= code.len() {
        let two_back = if i >= 2 {
            image_cell(code, (i - 2) as nat)
        } else {
            0
        };
        let one_back = if i >= 1 {
            image_cell(code, (i - 1) as nat)
        } else {
            0
        };
        lemma_crz_range(two_back, one_back, 10);
    } else {
        assert(char_code(code[i as int]) < 59049);
    }
}

/// The cell that holds character `i` of the code selects, at its own
/// address, the opcode that the character was checked for, as long as the
/// sum of character code and address is itself a word.
pub proof fn lemma_loaded_cell_opcode(code: Seq<char>, i: int)
    requires
        0 <= i < code.len() <= 59049,
        char_code(code[i]) + i < 59049,
    ensures
        decode_spec(memory_image(code)[i], i) == shifted_opcode(code, i),
{
}

/// A machine that starts at address zero on code whose first character
/// selects the end instruction halts at once: it completes no cycle, takes
/// no input and emits nothing.
pub proof fn lemma_end_program_halts(code: Seq<char>, before: State, input: Seq<u8>, fuel: nat)
    requires
        0 < code.len() <= 59049,
        all_chars_fit(code),
        shifted_opcode(code, 0) == 81,
        before.c == 0,
    ensures
        (State { mem: memory_image(code), ..before }).run(input, fuel) == Run::stopped(
            State { mem: memory_image(code), ..before },
            Outcome::Halted,
        ),
{
    let start = State { mem: memory_image(code), ..before };
    assert(char_code(code[0]) < 59049);
    lemma_loaded_cell_opcode(code, 0);
    lemma_end_halts_at_once(start, input, fuel);
}

/// Tells whether `c` is whitespace.
pub fn is_whitespace(c: char) -> (r: bool)
    ensures
        r == is_whitespace_spec(c),
{
    let n: u32 = c as u32;
    (0x09 <= n && n <= 0x0D) || n == 0x20 || n == 0x85 || n == 0xA0 || n == 0x1680 || (0x2000 <= n
        && n <= 0x200A) || n == 0x2028 || n == 0x2029 || n == 0x202F || n == 0x205F || n == 0x3000
}

/// Tells whether `op` is an opcode of the instruction set.
pub fn is_legal(op: usize) -> (r: bool)
    ensures
        r == is_legal_opcode(op as int),
{
    op == 4 || op == 5 || op == 23 || op == 39 || op == 40 || op == 62 || op == 68 || op == 81
}

/// Collects the code of a program text: its characters in order, without
/// the whitespace.
pub fn strip_whitespace(s: &str) -> (code: Vec<char>)
    ensures
        code@ == strip_whitespace_spec(s@),
{
    let mut code: Vec<char> = Vec::new();
    let chars = s.chars();
    proof {
        reveal(Seq::filter);
        assert(s@.take(0) =~= Seq::<char>::empty());
    }
    for c in it: chars
        invariant
            it.seq() == s@,
            code@ == strip_whitespace_spec(s@.take(it.index())),
    {
        proof {
            reveal(Seq::filter);
            let k = it.index();
            assert(s@.take(k + 1).drop_last() =~= s@.take(k));
        }
        if !is_whitespace(c) {
            code.push(c);
        }
    }
    proof {
        assert(s@.take(s@.len() as int) =~= s@);
    }
    code
}

impl Interpreter {
    /// Loads a program text: whitespace is dropped, and what is left is
    /// loaded as code.
    pub fn init_mem(&mut self, s: &str) -> (r: Result<usize, LoadError>)
        requires
            old(self).wf(),
        ensures
            final(self).wf(),
            loaded(old(self)@, strip_whitespace_spec(s@), r, final(self)@),
    {
        let code = strip_whitespace(s);
        self.load_code(code.as_slice())
    }

    /// Loads code, one character per cell from address zero on, and
    /// generates the rest of memory from it. Nothing is stored unless the
    /// whole code can be loaded.
    pub fn load_code(&mut self, code: &[char]) -> (r: Result<usize, LoadError>)
        requires
            old(self).wf(),
        ensures
            final(self).wf(),
            loaded(old(self)@, code@, r, final(self)@),
    {
        let n = code.len();
        for i in 0..n
            invariant
                n == code@.len(),
                self.wf(),
                self@ == old(self)@,
                forall|j: int| 0 <= j < i ==> is_legal_opcode(#[trigger] shifted_opcode(code@, j)),
        {
            let c: u32 = code[i] as u32;
            let op: usize = ((c % 94) as usize + i % 94) % 94;
            assert(op == shifted_opcode(code@, i as int));
            if !is_legal(op) {
                proof {
                    lemma_illegal_code_fails(code@, i as int);
                }
                return Err(LoadError::InvalidOpCode { op: op as u8 });
            }
        }
        if n > MAX_INT {
            return Err(LoadError::CodeTooLong);
        }
        for i in 0..n
            invariant
                n == code@.len(),
                n <= 59049,
                self.wf(),
                self@ == old(self)@,
                all_legal(code@),
                forall|j: int| 0 <= j < i ==> char_code(#[trigger] code@[j]) < 59049,
        {
            if code[i] as u32 >= 59049 {
                assert(!(char_code(code@[i as int]) < 59049));
                return Err(LoadError::CharTooLarge);
            }
        }
        let zero = Word::from_value(0);
        for i in 0..n
            invariant
                n == code@.len(),
                n <= 59049,
                all_legal(code@),
                all_chars_fit(code@),
                self.wf(),
                self@.a == old(self)@.a,
                self@.c == old(self)@.c,
                self@.d == old(self)@.d,
                forall|j: int| 0 <= j < i ==> #[trigger] self@.mem[j] == image_cell(code@, j as nat),
        {
            assert(char_code(code@[i as int]) < 59049);
            *self.get_mut(Word::from_value(i)) = Word::from_value(code[i] as u32 as usize);
        }
        for i in n..MAX_INT
            invariant
                n == code@.len(),
                n <= 59049,
                all_legal(code@),
                all_chars_fit(code@),
                zero@ == 0,
                zero.wf(),
                self.wf(),
                self@.a == old(self)@.a,
                self@.c == old(self)@.c,
                self@.d == old(self)@.d,
                forall|j: int| 0 <= j < i ==> #[trigger] self@.mem[j] == image_cell(code@, j as nat),
        {
            let two_back = if i >= 2 {
                self.get(Word::from_value(i - 2))
            } else {
                zero
            };
            let one_back = if i >= 1 {
                self.get(Word::from_value(i - 1))
            } else {
                zero
            };
            *self.get_mut(Word::from_value(i)) = two_back.crz(one_back);
        }
        assert(self@ =~= (State { mem: memory_image(code@), ..old(self)@ }));
        Ok(n)
    }
}

} // verus!
