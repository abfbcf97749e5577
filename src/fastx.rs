use vstd::prelude::*;
use vstd::string::StringSliceAdditionalSpecFns;
use vstd::utf8::{encode_utf8, is_char_boundary};

verus! {

/// A FASTA or FASTQ read.
#[derive(Debug, PartialEq)]
pub struct ReadsInfo {
    pub name: String,
    pub sequence: String,
    /// Qualities as a phred+33 string.
    pub qual: Option<String>,
    pub ch: Option<usize>,
    pub np: Option<usize>,
}

impl ReadsInfo {
    /// A FASTA read: name and sequence, nothing else.
    pub fn new_fa_record(name: String, seq: String) -> (r: Self)
        ensures
            r.name@ == name@,
            r.sequence@ == seq@,
            r.qual is None,
            r.ch is None,
            r.np is None,
    {
        Self { name, sequence: seq, qual: None, ch: None, np: None }
    }

    /// A FASTQ read: name, sequence and qualities.
    pub fn new_fq_record(name: String, seq: String, qual: String) -> (r: Self)
        ensures
            r.name@ == name@,
            r.sequence@ == seq@,
            r.qual is Some && r.qual->Some_0@ == qual@,
            r.ch is None,
            r.np is None,
    {
        Self { name, sequence: seq, qual: Some(qual), ch: None, np: None }
    }
}

/// Index of the first space byte of `b` at or after `from`, or `b.len()`.
pub open spec fn first_space(b: Seq<u8>, from: int) -> int
    decreases b.len() - from,
{
    if from >= b.len() || from < 0 {
        b.len() as int
    } else if b[from] == 32u8 {
        from
    } else {
        first_space(b, from + 1)
    }
}

/// The read name of a FASTA/FASTQ header line: the text after the leading
/// `>` or `@` up to the first space. `None` for an empty line or one whose
/// first character takes more than one byte.
pub fn fastx_header_line_to_header(header_line: &str) -> (r: Option<String>)
    ensures
        r is Some ==> header_line.spec_bytes().len() >= 1 && encode_utf8(r->Some_0@)
            == header_line.spec_bytes().subrange(1, first_space(header_line.spec_bytes(), 1)),
        (header_line.spec_bytes().len() >= 1 && header_line.spec_bytes()[0] < 128) ==> r is Some,
{
    let bytes = header_line.as_bytes();
    let n = bytes.len();
    if n == 0 || !header_line.is_char_boundary(1) {
        proof {
            if n > 0 && bytes@[0] < 128 {
                lemma_ascii_first_boundary(header_line);
            }
        }
        return None;
    }
    let (_, rest) = header_line.split_at(1);
    let mut k: usize = 1;
    while k < n && bytes[k] != 32u8
        invariant
            bytes@ == header_line.spec_bytes(),
            n == bytes@.len(),
            1 <= k <= n,
            first_space(bytes@, 1) == first_space(bytes@, k as int),
        decreases n - k,
    {
        k = k + 1;
    }
    proof {
        vstd::utf8::encode_utf8_valid_utf8(rest@);
        assert(rest.spec_bytes() =~= bytes@.subrange(1, n as int));
        if k < n {
            vstd::utf8::is_char_boundary_iff_not_is_continuation_byte(rest.spec_bytes(), k - 1);
        } else {
            vstd::utf8::is_char_boundary_start_end_of_seq(rest.spec_bytes());
        }
    }
    let (name, _) = rest.split_at(k - 1);
    proof {
        assert(rest.spec_bytes() =~= bytes@.subrange(1, n as int));
        assert(name.spec_bytes() =~= bytes@.subrange(1, k as int));
    }
    let out = name.to_owned();
    proof {
        assert(out@ == name@);
    }
    Some(out)
}

proof fn lemma_ascii_first_boundary(s: &str)
    requires
        s.spec_bytes().len() >= 1,
        s.spec_bytes()[0] < 128,
    ensures
        is_char_boundary(s.spec_bytes(), 1),
{
    let b = s.spec_bytes();
    vstd::utf8::encode_utf8_valid_utf8(s@);
    assert(vstd::utf8::is_leading_byte_width_1(b[0]));
    assert(vstd::utf8::length_of_first_scalar(b) == 1);
    assert(is_char_boundary(vstd::utf8::pop_first_scalar(b), 0));
}

} // verus!
