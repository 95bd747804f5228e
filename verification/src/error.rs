use vstd::prelude::*;

verus! {

/// Errors that can arise during GPU dispatch or tensor conversion.
#[derive(Debug, Clone)]
pub enum BridgeError {
    /// No CUDA-capable GPU is available; fall back to CPU.
    NoGpuAvailable,
    /// Dispatch queue is full or disconnected.
    DispatchFailed(String),
    /// Shape / dimension mismatch.
    ShapeMismatch { expected: Vec<usize>, got: Vec<usize> },
    /// Unified memory allocation failure.
    MemoryAllocationFailed(String),
    /// Kernel compilation or launch failure.
    KernelError(String),
    /// Timeout waiting for GPU result.
    Timeout,
    /// Generic / wrapped error.
    Other(String),
}

/// The character of a decimal digit.
pub open spec fn digit_char(d: nat) -> char {
    if d == 0 {
        '0'
    } else if d == 1 {
        '1'
    } else if d == 2 {
        '2'
    } else if d == 3 {
        '3'
    } else if d == 4 {
        '4'
    } else if d == 5 {
        '5'
    } else if d == 6 {
        '6'
    } else if d == 7 {
        '7'
    } else if d == 8 {
        '8'
    } else {
        '9'
    }
}

/// Decimal notation of a natural number, without leading zeros.
pub open spec fn decimal(n: nat) -> Seq<char>
    decreases n,
{
    if n < 10 {
        seq![digit_char(n)]
    } else {
        decimal(n / 10).push(digit_char(n % 10))
    }
}

/// The entries of a list of sizes, separated by ", ".
pub open spec fn joined_sizes(xs: Seq<usize>) -> Seq<char>
    decreases xs.len(),
{
    if xs.len() == 0 {
        Seq::empty()
    } else if xs.len() == 1 {
        decimal(xs[0] as nat)
    } else {
        joined_sizes(xs.drop_last()) + seq![',', ' '] + decimal(xs.last() as nat)
    }
}

/// Debug notation of a list of sizes, such as `[3, 4]`.
pub open spec fn size_list_text(xs: Seq<usize>) -> Seq<char> {
    seq!['['] + joined_sizes(xs) + seq![']']
}

/// The human-readable text of an error.
pub open spec fn error_text(e: BridgeError) -> Seq<char> {
    match e {
        BridgeError::NoGpuAvailable => "no GPU available"@,
        BridgeError::DispatchFailed(msg) => "dispatch failed: "@ + msg@,
        BridgeError::ShapeMismatch { expected, got } => "shape mismatch: expected "@
            + size_list_text(expected@) + ", got "@ + size_list_text(got@),
        BridgeError::MemoryAllocationFailed(msg) => "memory allocation failed: "@ + msg@,
        BridgeError::KernelError(msg) => "kernel error: "@ + msg@,
        BridgeError::Timeout => "GPU operation timed out"@,
        BridgeError::Other(msg) => msg@,
    }
}

/// Decimal digits are the characters `'0'` to `'9'`, in order.
pub proof fn law_digit_chars(d: nat)
    requires
        d < 10,
    ensures
        digit_char(d) as int == 48 + d,
{
}

/// Decimal notation: a number below ten is its one digit, and appending a
/// digit `d` to the notation of `q > 0` gives the notation of `10·q + d`.
pub proof fn law_decimal_digits(q: nat, d: nat)
    requires
        d < 10,
    ensures
        decimal(d) == seq![digit_char(d)],
        q > 0 ==> decimal(10 * q + d) == decimal(q).push(digit_char(d)),
{
    if q > 0 {
        let n = 10 * q + d;
        assert(n / 10 == q && n % 10 == d);
    }
}

/// Listing sizes: none gives nothing, one gives its notation, and every
/// further size is appended after ", ".
pub proof fn law_joined_sizes(xs: Seq<usize>, x: usize)
    ensures
        joined_sizes(Seq::<usize>::empty()) == Seq::<char>::empty(),
        joined_sizes(seq![x]) == decimal(x as nat),
        xs.len() > 0 ==> joined_sizes(xs.push(x)) == joined_sizes(xs) + seq![',', ' '] + decimal(
            x as nat,
        ),
{
    assert(xs.push(x).drop_last() =~= xs);
}

/// Appends the decimal digits of `n` to `s`.
fn push_decimal(s: &mut String, n: usize)
    ensures
        final(s)@ == old(s)@ + decimal(n as nat),
    decreases n,
{
    if n >= 10 {
        push_decimal(s, n / 10);
    }
    let d = n % 10;
    proof {
        reveal_strlit("0");
        reveal_strlit("1");
        reveal_strlit("2");
        reveal_strlit("3");
        reveal_strlit("4");
        reveal_strlit("5");
        reveal_strlit("6");
        reveal_strlit("7");
        reveal_strlit("8");
        reveal_strlit("9");
    }
    if d == 0 {
        s.append("0");
    } else if d == 1 {
        s.append("1");
    } else if d == 2 {
        s.append("2");
    } else if d == 3 {
        s.append("3");
    } else if d == 4 {
        s.append("4");
    } else if d == 5 {
        s.append("5");
    } else if d == 6 {
        s.append("6");
    } else if d == 7 {
        s.append("7");
    } else if d == 8 {
        s.append("8");
    } else {
        s.append("9");
    }
    assert(s@ =~= old(s)@ + decimal(n as nat));
}

/// Appends the debug notation of a list of sizes to `s`.
fn push_size_list(s: &mut String, xs: &Vec<usize>)
    ensures
        final(s)@ == old(s)@ + size_list_text(xs@),
{
    let ghost start = s@;
    proof {
        reveal_strlit("[");
        reveal_strlit("]");
        reveal_strlit(", ");
    }
    s.append("[");
    let mut i: usize = 0;
    while i < xs.len()
        invariant
            i <= xs@.len(),
            s@ == start + seq!['['] + joined_sizes(xs@.take(i as int)),
        decreases xs@.len() - i,
    {
        let ghost before = s@;
        if i > 0 {
            s.append(", ");
        }
        push_decimal(s, xs[i]);
        proof {
            let t = xs@.take(i + 1);
            assert(t.drop_last() =~= xs@.take(i as int));
            assert(t.last() == xs@[i as int]);
            if i == 0 {
                assert(xs@.take(0) =~= Seq::<usize>::empty());
                assert(s@ =~= start + seq!['['] + joined_sizes(t));
            } else {
                reveal_strlit(", ");
                assert(", "@ =~= seq![',', ' ']);
                assert(s@ =~= before + seq![',', ' '] + decimal(xs@[i as int] as nat));
                assert(joined_sizes(t) =~= joined_sizes(xs@.take(i as int)) + seq![',', ' ']
                    + decimal(xs@[i as int] as nat));
                assert(s@ =~= start + seq!['['] + joined_sizes(t));
            }
        }
        i = i + 1;
    }
    assert(xs@.take(xs@.len() as int) =~= xs@);
    s.append("]");
    assert(s@ =~= start + size_list_text(xs@));
}

impl BridgeError {
    /// The human-readable text of the error.
    pub fn message(&self) -> (r: String)
        ensures
            r@ == error_text(*self),
    {
        match self {
            BridgeError::NoGpuAvailable => String::from_str("no GPU available"),
            BridgeError::DispatchFailed(msg) => {
                let mut s = String::from_str("dispatch failed: ");
                s.append(msg.as_str());
                s
            },
            BridgeError::ShapeMismatch { expected, got } => {
                let mut s = String::from_str("shape mismatch: expected ");
                push_size_list(&mut s, expected);
                s.append(", got ");
                push_size_list(&mut s, got);
                assert(s@ =~= error_text(*self));
                s
            },
            BridgeError::MemoryAllocationFailed(msg) => {
                let mut s = String::from_str("memory allocation failed: ");
                s.append(msg.as_str());
                s
            },
            BridgeError::KernelError(msg) => {
                let mut s = String::from_str("kernel error: ");
                s.append(msg.as_str());
                s
            },
            BridgeError::Timeout => String::from_str("GPU operation timed out"),
            BridgeError::Other(msg) => msg.clone(),
        }
    }
}

} // verus!
