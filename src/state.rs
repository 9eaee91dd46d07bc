use vstd::arithmetic::power2::*;
use vstd::prelude::*;
use vstd::string::*;

verus! {

/// Why a textual basis state `|b...b>` was refused.
#[derive(Clone, Copy, Debug, PartialEq, Eq, Structural)]
pub enum ParseRegisterError {
    /// The text does not have the expected number of characters.
    WrongLength,
    /// The text does not begin with `|` or does not end with `>`.
    WrongFormat,
    /// The digit at this position of the text (the first digit is at 1) is neither `0`
    /// nor `1`; it is the first such digit.
    InvalidChar(usize),
    /// The text holds more than 32 digits.
    MoreThan32Bits,
}

pub open spec fn is_bit(c: char) -> bool {
    c == '0' || c == '1'
}

/// The number written by a string of binary digits, most significant digit first.
pub open spec fn bits_value(s: Seq<char>) -> nat
    decreases s.len(),
{
    if s.len() == 0 {
        0
    } else {
        2 * bits_value(s.drop_last()) + (if s.last() == '1' { 1nat } else { 0nat })
    }
}

/// Position `i` holds the first digit of the literal that is neither `0` nor `1`.
pub open spec fn first_bad_digit(s: Seq<char>, n: nat, i: int) -> bool {
    &&& 1 <= i <= n
    &&& !is_bit(s[i])
    &&& forall|j: int| 1 <= j < i ==> is_bit(#[trigger] s[j])
}

/// The fault of a basis-state literal for an `n`-qubit register, if it has one.
/// The text is `|` followed by `n` binary digits and `>`; the last digit is qubit 0.
pub open spec fn ket_fault(s: Seq<char>, n: nat) -> Option<ParseRegisterError> {
    if s.len() != n + 2 {
        Some(ParseRegisterError::WrongLength)
    } else if s[0] != '|' || s[n + 1 as int] != '>' {
        Some(ParseRegisterError::WrongFormat)
    } else if exists|i: int| 1 <= i <= n && !is_bit(#[trigger] s[i]) {
        Some(ParseRegisterError::InvalidChar((choose|i: int| first_bad_digit(s, n, i)) as usize))
    } else {
        None
    }
}

/// The basis state that a well-formed literal denotes.
pub open spec fn ket_value(s: Seq<char>, n: nat) -> nat {
    bits_value(s.subrange(1, n + 1 as int))
}

/// What parsing the literal `s` for an `n`-qubit register yields.
pub open spec fn parse_ket(s: Seq<char>, n: nat) -> Result<u64, ParseRegisterError> {
    match ket_fault(s, n) {
        Some(e) => Err(e),
        None => Ok(ket_value(s, n) as u64),
    }
}

/// A literal is accepted exactly when it has `n + 2` characters, begins with `|`, ends
/// with `>`, and holds only `0` and `1` in between.
pub proof fn lemma_accepts_exactly_well_formed(s: Seq<char>, n: nat)
    ensures
        parse_ket(s, n) is Ok <==> (s.len() == n + 2 && s[0] == '|' && s[n + 1 as int] == '>'
            && forall|i: int| 1 <= i <= n ==> is_bit(#[trigger] s[i])),
{
}

pub proof fn lemma_bits_value_bound(s: Seq<char>)
    ensures
        bits_value(s) < pow2(s.len()),
    decreases s.len(),
{
    if s.len() > 0 {
        lemma_bits_value_bound(s.drop_last());
        lemma_pow2_unfold(s.len());
    } else {
        lemma_pow2_pos(0);
    }
}

/// Parses the literal `|b_{n-1}...b_1b_0>` of an `n`-qubit basis state: bit `i` of the
/// result is the digit of qubit `i`, written `i` places from the right.
pub fn parse_state(size: u8, s: &str) -> (r: Result<u64, ParseRegisterError>)
    requires
        1 <= size <= 64,
    ensures
        r == parse_ket(s@, size as nat),
{
    let n = size as usize;
    let len = s.unicode_len();
    if len != n + 2 {
        return Err(ParseRegisterError::WrongLength);
    }
    if s.get_char(0) != '|' || s.get_char(n + 1) != '>' {
        return Err(ParseRegisterError::WrongFormat);
    }
    let mut value: u64 = 0;
    let mut i: usize = 1;
    while i <= n
        invariant
            1 <= i <= n + 1,
            n == size,
            size <= 64,
            s@.len() == n + 2,
            s@[0] == '|',
            s@[n + 1] == '>',
            forall|j: int| 1 <= j < i ==> is_bit(#[trigger] s@[j]),
            value as nat == bits_value(s@.subrange(1, i as int)),
        decreases n + 1 - i,
    {
        let c = s.get_char(i);
        if c != '0' && c != '1' {
            proof {
                assert(first_bad_digit(s@, n as nat, i as int));
                let c = choose|c: int| first_bad_digit(s@, n as nat, c);
                if c < i {
                    assert(is_bit(s@[c]));
                } else if c > i {
                    assert(is_bit(s@[i as int]));
                }
            }
            return Err(ParseRegisterError::InvalidChar(i));
        }
        let ghost prefix = s@.subrange(1, i as int);
        let ghost next = s@.subrange(1, i as int + 1);
        proof {
            assert(next.drop_last() =~= prefix);
            lemma_bits_value_bound(prefix);
            lemma2_to64_rest();
            if prefix.len() < 63 {
                lemma_pow2_strictly_increases(prefix.len(), 63);
            }
        }
        if c == '1' {
            value = value * 2 + 1;
        } else {
            value = value * 2;
        }
        i = i + 1;
    }
    assert(!(exists|j: int| 1 <= j <= n && !is_bit(#[trigger] s@[j])));
    Ok(value)
}

/// A register of qubits prepared in one computational basis state.
pub struct Register {
    pub qbit_count: usize,
    pub ket_size: u64,
    pub state: u64,
}

/// What `Register::new` yields on the text `s`: a literal of 1 to 60 qubits.
pub open spec fn register_of(s: Seq<char>) -> Result<(nat, u64), ParseRegisterError> {
    if s.len() < 3 || s.len() > 62 {
        Err(ParseRegisterError::WrongLength)
    } else {
        match parse_ket(s, (s.len() - 2) as nat) {
            Ok(v) => Ok(((s.len() - 2) as nat, v)),
            Err(e) => Err(e),
        }
    }
}

impl Register {
    /// Parses `|b...b>` with 1 to 60 digits; the register has one qubit per digit.
    pub fn new(s: &str) -> (r: Result<Register, ParseRegisterError>)
        ensures
            match r {
                Ok(reg) => register_of(s@) == Ok::<(nat, u64), ParseRegisterError>(
                    (reg.qbit_count as nat, reg.state),
                ) && reg.ket_size == pow2(reg.qbit_count as nat) && reg.state < reg.ket_size,
                Err(e) => register_of(s@) == Err::<(nat, u64), ParseRegisterError>(e),
            },
    {
        let n = s.unicode_len();
        if n < 3 || n > 62 {
            return Err(ParseRegisterError::WrongLength);
        }
        let qbit_count = n - 2;
        match parse_state(qbit_count as u8, s) {
            Ok(state) => {
                proof {
                    lemma_bits_value_bound(s@.subrange(1, n as int - 1));
                    lemma2_to64();
                    lemma2_to64_rest();
                    lemma_pow2_strictly_increases(qbit_count as nat, 61);
                }
                proof {
                    lemma_shl_is_pow2(qbit_count as u64);
                }
                let ket_size: u64 = 1u64 << (qbit_count as u64);
                Ok(Register { qbit_count, ket_size, state })
            },
            Err(e) => Err(e),
        }
    }
}

proof fn lemma_shl_is_pow2(k: u64)
    requires
        k <= 60,
    ensures
        (1u64 << k) == pow2(k as nat),
{
    lemma2_to64();
    lemma2_to64_rest();
    if k < 60 {
        lemma_pow2_strictly_increases(k as nat, 60);
    }
    assert(1 * pow2(k as nat) == pow2(k as nat));
    vstd::bits::lemma_u64_shl_is_mul(1, k);
}

/// What reading a register from the text `s` yields: a literal of 1 to 32 qubits.
pub open spec fn register_text(s: Seq<char>) -> Result<(nat, u64), ParseRegisterError> {
    if s.len() < 3 {
        Err(ParseRegisterError::WrongLength)
    } else if s.len() > 34 {
        Err(ParseRegisterError::MoreThan32Bits)
    } else {
        match parse_ket(s, (s.len() - 2) as nat) {
            Ok(v) => Ok(((s.len() - 2) as nat, v)),
            Err(e) => Err(e),
        }
    }
}

impl Register {
    /// Reads `|b...b>` with 1 to 32 digits; the register has one qubit per digit.
    pub fn parse(s: &str) -> (r: Result<Register, ParseRegisterError>)
        ensures
            match r {
                Ok(reg) => register_text(s@) == Ok::<(nat, u64), ParseRegisterError>(
                    (reg.qbit_count as nat, reg.state),
                ) && reg.ket_size == pow2(reg.qbit_count as nat) && reg.state < reg.ket_size,
                Err(e) => register_text(s@) == Err::<(nat, u64), ParseRegisterError>(e),
            },
    {
        let n = s.unicode_len();
        if n < 3 {
            return Err(ParseRegisterError::WrongLength);
        }
        if n > 34 {
            return Err(ParseRegisterError::MoreThan32Bits);
        }
        Register::new(s)
    }
}

impl core::str::FromStr for Register {
    type Err = ParseRegisterError;

    /// Reads a register with `Register::parse`.
    fn from_str(s: &str) -> Result<Register, ParseRegisterError> {
        Register::parse(s)
    }
}

} // verus!
