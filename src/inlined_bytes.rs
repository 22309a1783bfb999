//! Byte runs inlined in a [`Heap`]: the payload, then zero bytes up to the end
//! of the last cell, so that the first zero byte marks where the run ends.

use vstd::prelude::*;
use vstd::utf8::*;
use vstd::string::StringSliceAdditionalSpecFns;
use crate::heap::{Heap, CELL_BYTES, zeros};

verus! {

/// No byte of `p` is zero.
pub open spec fn zero_free(p: Seq<u8>) -> bool {
    forall|i: int| 0 <= i < p.len() ==> p[i] != 0
}

/// `e` is the first zero byte of `s` at or after `pos`.
pub open spec fn is_terminator(s: Seq<u8>, pos: int, e: int) -> bool {
    &&& pos <= e < s.len()
    &&& s[e] == 0
    &&& forall|k: int| pos <= k < e ==> s[k] != 0
}

/// `pos` lies inside `s`, and a zero byte follows at or after it.
pub open spec fn is_terminated_at(s: Seq<u8>, pos: int) -> bool {
    &&& 0 <= pos < s.len()
    &&& exists|e: int| pos <= e < s.len() && s[e] == 0
}

/// Where the bytes read from `pos` end: the first zero byte at or after it.
pub open spec fn terminator(s: Seq<u8>, pos: int) -> int {
    choose|e: int| is_terminator(s, pos, e)
}

/// The bytes read from `pos`: those before the first zero byte at or after it.
pub open spec fn terminated_bytes(s: Seq<u8>, pos: int) -> Seq<u8> {
    s.subrange(pos, terminator(s, pos))
}

/// The number of cells that a payload of `n` bytes takes: room for the bytes
/// and at least one zero byte after them.
pub open spec fn run_cells(n: nat) -> nat {
    n / (CELL_BYTES as nat) + 1
}

/// `s` holds, from byte `start`, the run that encodes `p`: the bytes of `p`,
/// then zero bytes up to the end of `run_cells(p.len())` cells.
pub open spec fn is_encoded_run(s: Seq<u8>, start: int, p: Seq<u8>) -> bool {
    let end = start + run_cells(p.len()) * (CELL_BYTES as nat);
    &&& 0 <= start
    &&& end <= s.len()
    &&& s.subrange(start, start + p.len()) == p
    &&& forall|i: int| start + p.len() <= i < end ==> s[i] == 0
}

/// From any zero byte at or after `pos`, there is a first one.
proof fn lemma_first_zero(s: Seq<u8>, pos: int, z: int)
    requires
        pos <= z < s.len(),
        s[z] == 0,
    ensures
        exists|e: int| is_terminator(s, pos, e),
    decreases z - pos,
{
    if exists|k: int| pos <= k < z && s[k] == 0 {
        let k = choose|k: int| pos <= k < z && s[k] == 0;
        lemma_first_zero(s, pos, k);
    } else {
        assert(is_terminator(s, pos, z));
    }
}

/// The first zero byte is the only one that meets `is_terminator`.
pub proof fn lemma_terminator(s: Seq<u8>, pos: int, e: int)
    requires
        is_terminator(s, pos, e),
    ensures
        terminator(s, pos) == e,
        terminated_bytes(s, pos) == s.subrange(pos, e),
{
    let t = terminator(s, pos);
    assert(is_terminator(s, pos, t));
    if t < e {
        assert(s[t] != 0);
    } else if e < t {
        assert(s[e] != 0);
    }
}

/// A terminated position has its first zero byte.
pub proof fn lemma_terminated(s: Seq<u8>, pos: int)
    requires
        is_terminated_at(s, pos),
    ensures
        is_terminator(s, pos, terminator(s, pos)),
{
    let z = choose|z: int| pos <= z < s.len() && s[z] == 0;
    lemma_first_zero(s, pos, z);
}

/// Reading an encoded run of a zero-free payload from any of the payload's
/// positions, or from just after it, gives the rest of the payload.
proof fn lemma_read_from(s: Seq<u8>, start: int, p: Seq<u8>, o: int)
    requires
        is_encoded_run(s, start, p),
        zero_free(p),
        0 <= o <= p.len(),
    ensures
        is_terminated_at(s, start + o),
        terminated_bytes(s, start + o) == p.subrange(o, p.len() as int),
{
    let n = p.len();
    let e = start + n;
    assert(n < run_cells(n) * (CELL_BYTES as nat)) by (nonlinear_arith)
        requires
            CELL_BYTES == 8,
    ;
    assert forall|k: int| start + o <= k < e implies s[k] != 0 by {
        assert(s[k] == s.subrange(start, e)[k - start]);
    }
    assert(is_terminator(s, start + o, e));
    lemma_terminator(s, start + o, e);
    assert(s.subrange(start + o, e) =~= p.subrange(o, n as int)) by {
        assert forall|k: int| 0 <= k < n - o implies s.subrange(start + o, e)[k] == p.subrange(
            o,
            n as int,
        )[k] by {
            assert(s[start + o + k] == s.subrange(start, e)[o + k]);
        }
    }
}

/// Reading an encoded run of a zero-free payload from its start gives back
/// exactly the payload.
pub proof fn lemma_round_trip(s: Seq<u8>, start: int, p: Seq<u8>)
    requires
        is_encoded_run(s, start, p),
        zero_free(p),
    ensures
        is_terminated_at(s, start),
        terminated_bytes(s, start) == p,
{
    lemma_read_from(s, start, p, 0);
    assert(p.subrange(0, p.len() as int) =~= p);
}

/// In an encoded run, the byte right after the payload is zero.
pub proof fn lemma_zero_after_payload(s: Seq<u8>, start: int, p: Seq<u8>)
    requires
        is_encoded_run(s, start, p),
    ensures
        s[start + p.len()] == 0,
{
    let n = p.len();
    assert(n < run_cells(n) * (CELL_BYTES as nat)) by (nonlinear_arith)
        requires
            CELL_BYTES == 8,
    ;
}

/// Reading an encoded run of a zero-free payload `p` from byte `o` of the
/// payload, for any `o` before its end, gives `p[o..]`.
pub proof fn lemma_offset_read(s: Seq<u8>, start: int, p: Seq<u8>, o: int)
    requires
        is_encoded_run(s, start, p),
        zero_free(p),
        0 <= o < p.len(),
    ensures
        is_terminated_at(s, start + o),
        terminated_bytes(s, start + o) == p.subrange(o, p.len() as int),
{
    lemma_read_from(s, start, p, o);
}

/// Encoding the UTF-8 bytes of a text that has no zero byte and reading the
/// run back gives well-formed UTF-8 that decodes to the same text.
pub proof fn lemma_text_round_trip(s: Seq<u8>, start: int, text: Seq<char>)
    requires
        is_encoded_run(s, start, encode_utf8(text)),
        zero_free(encode_utf8(text)),
    ensures
        valid_utf8(terminated_bytes(s, start)),
        decode_utf8(terminated_bytes(s, start)) == text,
{
    lemma_round_trip(s, start, encode_utf8(text));
    encode_utf8_valid_utf8(text);
    encode_utf8_decode_utf8(text);
}

/// `std::str::Utf8Error`, the error that UTF-8 validation hands back.
#[verifier::external_type_specification]
#[verifier::external_body]
pub struct ExUtf8Error(std::str::Utf8Error);

/// Relies on `std::str::from_utf8`: `Ok` exactly when the bytes are
/// well-formed UTF-8, and then a text whose UTF-8 bytes are those bytes.
#[verifier::external_body]
fn utf8_text(v: &[u8]) -> (r: Result<&str, std::str::Utf8Error>)
    ensures
        match r {
            Ok(t) => valid_utf8(v@) && t.spec_bytes() == v@,
            Err(_) => !valid_utf8(v@),
        },
{
    std::str::from_utf8(v)
}

/// A read-only view of the bytes inlined in a heap from a byte position up to
/// the first zero byte after it. Reading scans for that zero byte each time.
#[derive(Copy, Clone, Debug)]
pub struct InlinedBytes<'a> {
    buffer: &'a [u8],
    pos: usize,
}

impl<'a> View for InlinedBytes<'a> {
    type V = Seq<u8>;

    /// The bytes that a read of this view returns.
    closed spec fn view(&self) -> Seq<u8> {
        terminated_bytes(self.buffer@, self.pos as int)
    }
}

impl<'a> InlinedBytes<'a> {
    #[verifier::type_invariant]
    spec fn inv(&self) -> bool {
        is_terminated_at(self.buffer@, self.pos as int)
    }

    /// Gets the inlined bytes that start at cell `addr` of the heap.
    pub fn from_addr(heap: &'a Heap, addr: usize) -> (r: Self)
        requires
            is_terminated_at(heap@, addr * CELL_BYTES),
        ensures
            r@ == terminated_bytes(heap@, addr * CELL_BYTES),
    {
        let buffer = heap.as_bytes();
        assert(buffer@.len() == buffer.len());
        InlinedBytes { buffer, pos: addr * CELL_BYTES }
    }

    /// Gets the inlined bytes that start `offset` bytes into cell `addr` of the
    /// heap, such as what is left of a run after its first few bytes.
    pub fn from_addr_offset(heap: &'a Heap, addr: usize, offset: usize) -> (r: Self)
        requires
            is_terminated_at(heap@, addr * CELL_BYTES + offset),
        ensures
            r@ == terminated_bytes(heap@, addr * CELL_BYTES + offset),
    {
        let buffer = heap.as_bytes();
        assert(buffer@.len() == buffer.len());
        InlinedBytes { buffer, pos: addr * CELL_BYTES + offset }
    }

    /// Gets the inlined bytes that start `offset` bytes into cell `addr` of the
    /// heap, or `None` where that position is past the end of the heap or no
    /// zero byte follows it there. This scans the bytes.
    pub fn from_addr_offset_checked(heap: &'a Heap, addr: usize, offset: usize) -> (r: Option<Self>)
        ensures
            r is Some <==> is_terminated_at(heap@, addr * CELL_BYTES + offset),
            r matches Some(v) ==> v@ == terminated_bytes(heap@, addr * CELL_BYTES + offset),
    {
        let buffer = heap.as_bytes();
        let ghost s = heap@;
        let ghost target: int = addr * CELL_BYTES + offset;
        let pos = match addr.checked_mul(CELL_BYTES) {
            Some(base) => base.checked_add(offset),
            None => None,
        };
        let pos = match pos {
            Some(p) => p,
            None => {
                assert(buffer@.len() == buffer.len());
                return None;
            },
        };
        assert(pos == target);
        let mut i: usize = pos;
        while i < buffer.len()
            invariant
                pos == target,
                target == addr * CELL_BYTES + offset,
                pos <= i,
                buffer@ == s,
                s == heap@,
                forall|k: int| pos <= k < i ==> s[k] != 0,
            decreases buffer@.len() - i,
        {
            if buffer[i] == 0 {
                assert(s[i as int] == 0);
                assert(is_terminated_at(s, target));
                return Some(InlinedBytes { buffer, pos });
            }
            i = i + 1;
        }
        None
    }

    /// The number of bytes before the first zero byte. This scans the bytes.
    fn len(&self) -> (r: usize)
        ensures
            r == self@.len(),
    {
        proof {
            use_type_invariant(self);
            lemma_terminated(self.buffer@, self.pos as int);
        }
        let ghost t = terminator(self.buffer@, self.pos as int);
        let mut i: usize = self.pos;
        while self.buffer[i] != 0
            invariant
                self.pos <= i <= t,
                is_terminator(self.buffer@, self.pos as int, t),
            decreases t - i,
        {
            i = i + 1;
        }
        i - self.pos
    }

    /// The bytes before the first zero byte. This scans the bytes.
    pub fn as_bytes(&self) -> (r: &[u8])
        ensures
            r@ == self@,
    {
        proof {
            use_type_invariant(self);
            lemma_terminated(self.buffer@, self.pos as int);
            assert(self.buffer@.len() == self.buffer.len());
        }
        let n = self.len();
        vstd::slice::slice_subrange(self.buffer, self.pos, self.pos + n)
    }
    /// The bytes read as UTF-8 text, or the validation error where they are not
    /// well-formed UTF-8. This scans the bytes twice: once for the zero byte,
    /// once to validate.
    pub fn as_str(&self) -> (r: Result<&str, std::str::Utf8Error>)
        ensures
            match r {
                Ok(t) => valid_utf8(self@) && t@ == decode_utf8(self@),
                Err(_) => !valid_utf8(self@),
            },
    {
        let r = utf8_text(self.as_bytes());
        proof {
            if let Ok(t) = r {
                encode_utf8_decode_utf8(t@);
            }
        }
        r
    }

    /// The bytes as UTF-8 text, for a caller that already knows them to be
    /// well-formed UTF-8; that makes the validation inside it unable to fail.
    pub fn as_str_unchecked(&self) -> (r: &str)
        requires
            valid_utf8(self@),
        ensures
            r@ == decode_utf8(self@),
            r.spec_bytes() == self@,
    {
        match utf8_text(self.as_bytes()) {
            Ok(t) => {
                proof {
                    encode_utf8_decode_utf8(t@);
                }
                t
            },
            Err(_) => {
                assert(false);
                ""
            },
        }
    }
}

/// Writes `bytes` at the end of the heap as an inlined run and returns a view
/// of it. The run takes `bytes.len() / CELL_BYTES + 1` new cells: the bytes,
/// then zero bytes to the end of the last cell, so at least one zero byte
/// follows them. A zero byte inside `bytes` cuts short what the view reads.
pub fn allocate_inlined_bytes<'a>(heap: &'a mut Heap, bytes: &[u8]) -> (r: InlinedBytes<'a>)
    requires
        old(heap).wf(),
        old(heap)@.len() + run_cells(bytes@.len()) * CELL_BYTES <= usize::MAX,
    ensures
        final(heap).wf(),
        final(heap)@ == old(heap)@ + bytes@ + zeros(
            (run_cells(bytes@.len()) * CELL_BYTES - bytes@.len()) as nat,
        ),
        final(heap).cells() == old(heap).cells() + run_cells(bytes@.len()),
        is_encoded_run(final(heap)@, old(heap)@.len() as int, bytes@),
        final(heap)@[old(heap)@.len() + bytes@.len() as int] == 0,
        r@ == terminated_bytes(final(heap)@, old(heap)@.len() as int),
        zero_free(bytes@) ==> r@ == bytes@,
{
    let ghost s0 = heap@;
    let ghost n = bytes@.len();
    let num_cells = bytes.len() / CELL_BYTES + 1;
    let initial_len = heap.len();
    let start = initial_len * CELL_BYTES;
    assert(n < num_cells * CELL_BYTES) by (nonlinear_arith)
        requires
            num_cells == n / 8 + 1,
            CELL_BYTES == 8,
    ;
    heap.push_zeroed_cells(num_cells);
    let ghost total = (num_cells * CELL_BYTES) as nat;
    let mut i: usize = 0;
    while i < bytes.len()
        invariant
            i <= n,
            n == bytes@.len(),
            n < total,
            start == s0.len(),
            s0.len() + total <= usize::MAX,
            heap.wf(),
            heap@ == s0 + bytes@.subrange(0, i as int) + zeros((total - i) as nat),
        decreases n - i,
    {
        heap.write_byte(start + i, bytes[i]);
        i = i + 1;
        assert(heap@ =~= s0 + bytes@.subrange(0, i as int) + zeros((total - i) as nat));
    }
    assert(heap@ =~= s0 + bytes@ + zeros((total - n) as nat));
    let ghost s1 = heap@;
    assert(s1.subrange(start as int, start + n) =~= bytes@);
    assert(is_encoded_run(s1, start as int, bytes@));
    proof {
        lemma_zero_after_payload(s1, start as int, bytes@);
        if zero_free(bytes@) {
            lemma_round_trip(s1, start as int, bytes@);
        }
    }
    InlinedBytes::from_addr(heap, initial_len)
}

} // verus!
