//! Comparing two files byte by byte: where the first difference lies, and how a
//! differing byte is shown.
use crate::text::push_char;
use vstd::prelude::*;

verus! {

/// The hexadecimal digit (upper case) of a value below 16.
pub open spec fn hex_digit(d: nat) -> char {
    if d < 10 {
        crate::text::digit_char(d)
    } else if d == 10 {
        'A'
    } else if d == 11 {
        'B'
    } else if d == 12 {
        'C'
    } else if d == 13 {
        'D'
    } else if d == 14 {
        'E'
    } else {
        'F'
    }
}

/// How a byte is shown: itself when it is a visible ASCII character or a space,
/// else `0x` and two upper-case hexadecimal digits.
pub open spec fn byte_text(b: u8) -> Seq<char> {
    if 32 <= b <= 126 {
        seq![b as char]
    } else {
        seq!['0', 'x', hex_digit((b / 16) as nat), hex_digit((b % 16) as nat)]
    }
}

/// The hexadecimal digit of a value below 16 (see `hex_digit`).
fn hex_of(d: u8) -> (r: char)
    requires
        d < 16,
    ensures
        r == hex_digit(d as nat),
{
    if d < 10 {
        crate::text::digit_of(d as u64)
    } else if d == 10 {
        'A'
    } else if d == 11 {
        'B'
    } else if d == 12 {
        'C'
    } else if d == 13 {
        'D'
    } else if d == 14 {
        'E'
    } else {
        'F'
    }
}

/// A byte as it is shown (see `byte_text`).
pub fn format_byte(b: u8) -> (r: String)
    ensures
        r@ == byte_text(b),
{
    let mut out = String::new();
    if 32 <= b && b <= 126 {
        push_char(&mut out, b as char);
    } else {
        push_char(&mut out, '0');
        push_char(&mut out, 'x');
        push_char(&mut out, hex_of(b / 16));
        push_char(&mut out, hex_of(b % 16));
    }
    assert(out@ =~= byte_text(b));
    out
}

/// The number of line feeds among the bytes.
pub open spec fn newlines(s: Seq<u8>) -> nat
    decreases s.len(),
{
    if s.len() == 0 {
        0
    } else {
        newlines(s.drop_last()) + if s.last() == 10u8 { 1nat } else { 0nat }
    }
}

/// The first difference between two files.
#[derive(Debug, Clone, Copy, PartialEq, Eq, Structural)]
pub struct ByteDifference {
    /// Offset of the differing byte.
    pub byte_offset: u64,
    /// Its line, counting from 1.
    pub line_number: u64,
    /// The first file's byte there (0 past its end).
    pub file1_byte: u8,
    /// The second file's byte there (0 past its end).
    pub file2_byte: u8,
}

/// The outcome of comparing two files.
#[derive(Debug, Clone, Copy, PartialEq, Eq, Structural)]
pub enum CompareStep {
    /// The files are identical.
    Identical,
    /// The files differ.
    Differ(ByteDifference),
}

/// Whether two contents part at `k`: one of them ends there, or their bytes there
/// differ.
pub open spec fn parts_at(a: Seq<u8>, b: Seq<u8>, k: int) -> bool {
    k == a.len() || k == b.len() || a[k] != b[k]
}

/// The first offset where two contents part (see `parts_at`): every byte before it is
/// the same in both.
pub open spec fn first_parting(a: Seq<u8>, b: Seq<u8>) -> int {
    choose|k: int|
        0 <= k <= a.len() && k <= b.len() && parts_at(a, b, k) && forall|j: int|
            0 <= j < k ==> a[j] == b[j]
}

/// The outcome of comparing two whole contents: identical when they are equal, else
/// the first offset where they part, its line (1 plus the line feeds before it) and
/// the byte of each there (0 past its end).
pub open spec fn contents_compared(a: Seq<u8>, b: Seq<u8>) -> CompareStep {
    if a == b {
        CompareStep::Identical
    } else {
        let k = first_parting(a, b);
        CompareStep::Differ(
            ByteDifference {
                byte_offset: k as u64,
                line_number: (1 + newlines(a.subrange(0, k))) as u64,
                file1_byte: if k < a.len() { a[k] } else { 0u8 },
                file2_byte: if k < b.len() { b[k] } else { 0u8 },
            },
        )
    }
}

/// Compares the contents of two files (see `contents_compared`).
pub fn compare_contents(a: &[u8], b: &[u8]) -> (r: CompareStep)
    requires
        a@.len() < u64::MAX,
    ensures
        r == contents_compared(a@, b@),
{
    let mut i: usize = 0;
    let mut line: u64 = 1;
    while i < a.len() && i < b.len() && a[i] == b[i]
        invariant
            i <= a@.len(),
            i <= b@.len(),
            a@.len() < u64::MAX,
            forall|j: int| 0 <= j < i ==> a@[j] == b@[j],
            line == 1 + newlines(a@.subrange(0, i as int)),
            newlines(a@.subrange(0, i as int)) <= i,
        decreases a.len() - i,
    {
        assert(a@.subrange(0, i + 1).drop_last() =~= a@.subrange(0, i as int));
        if a[i] == 10u8 {
            line = line + 1;
        }
        i = i + 1;
    }
    proof {
        assert(parts_at(a@, b@, i as int));
        assert(first_parting(a@, b@) == i as int) by {
            let k = choose|k: int|
                0 <= k <= a@.len() && k <= b@.len() && parts_at(a@, b@, k) && forall|j: int|
                    0 <= j < k ==> a@[j] == b@[j];
            if k < i {
                assert(a@[k] == b@[k]);
            } else if k > i {
                assert(i < a@.len() && i < b@.len() && a@[i as int] == b@[i as int]);
            }
        }
    }
    if i == a.len() && i == b.len() {
        assert(a@ =~= b@);
        return CompareStep::Identical;
    }
    assert(a@ != b@) by {
        if a@ == b@ {
            assert(i < a@.len() && a@[i as int] == b@[i as int]);
        }
    }
    CompareStep::Differ(
        ByteDifference {
            byte_offset: i as u64,
            line_number: line,
            file1_byte: if i < a.len() { a[i] } else { 0u8 },
            file2_byte: if i < b.len() { b[i] } else { 0u8 },
        },
    )
}

/// A file compared with itself is identical.
pub proof fn lemma_same_contents_identical(a: Seq<u8>)
    ensures
        contents_compared(a, a) == CompareStep::Identical,
{
}

/// A difference, as `cmp` reports it.
#[derive(Debug, Clone)]
pub struct Difference {
    /// Offset of the differing byte.
    pub byte_offset: u64,
    /// Its line.
    pub line_number: u64,
    /// The first file's byte, shown (see `byte_text`).
    pub file1_value: String,
    /// The second file's byte, shown.
    pub file2_value: String,
}

/// What `cmp` reports.
#[derive(Debug, Clone)]
pub struct CmpOutput {
    /// The two files compared.
    pub files: Vec<String>,
    /// Whether they are identical.
    pub identical: bool,
    /// Their first difference, if they differ.
    pub difference: Option<Difference>,
}

/// The report of a finished comparison of two files: identical, or the first
/// difference with both bytes shown.
pub fn cmp_output(path1: &str, path2: &str, step: CompareStep) -> (r: CmpOutput)
    ensures
        r.files@.len() == 2 && r.files@[0]@ == path1@ && r.files@[1]@ == path2@,
        r.identical == (step == CompareStep::Identical),
        match step {
            CompareStep::Differ(d) => r.difference matches Some(x) && x.byte_offset == d.byte_offset
                && x.line_number == d.line_number && x.file1_value@ == byte_text(d.file1_byte)
                && x.file2_value@ == byte_text(d.file2_byte),
            _ => r.difference is None,
        },
{
    let mut files: Vec<String> = Vec::new();
    files.push(String::from_str(path1));
    files.push(String::from_str(path2));
    let difference = match step {
        CompareStep::Differ(d) => Some(
            Difference {
                byte_offset: d.byte_offset,
                line_number: d.line_number,
                file1_value: format_byte(d.file1_byte),
                file2_value: format_byte(d.file2_byte),
            },
        ),
        _ => None,
    };
    let identical = match step {
        CompareStep::Identical => true,
        _ => false,
    };
    CmpOutput { files, identical, difference }
}

} // verus!
