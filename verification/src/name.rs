//! Domain-name encoding and decoding.
//!
//! On the wire a name is a run of labels, each prefixed by a one-byte length,
//! terminated by a zero length byte; a length byte with either of its top two
//! bits set instead starts a two-byte compression pointer.  In memory a name
//! is the dot-joined label sequence, kept as raw bytes because responses are
//! attacker-influenced and labels need not be valid text.

use vstd::prelude::*;
use vstd::slice::slice_index_get;
use vstd::string::StringSliceAdditionalSpecFns;
use vstd::string::is_ascii_spec_bytes;

use crate::types::DnsError;

verus! {

/// The byte that joins labels in a printable name.
pub const DOT: u8 = 46;

/// The characters of an ASCII string, as bytes.
pub open spec fn str_bytes(s: Seq<char>) -> Seq<u8> {
    Seq::new(s.len(), |i: int| s[i] as u8)
}

/// Index of the first dot of `s`, or `s.len()` if there is none.
pub open spec fn first_dot(s: Seq<u8>) -> nat
    decreases s.len(),
{
    if s.len() == 0 {
        0
    } else if s[0] == DOT {
        0
    } else {
        1 + first_dot(s.skip(1))
    }
}

proof fn lemma_first_dot(s: Seq<u8>)
    ensures
        first_dot(s) <= s.len(),
        first_dot(s) < s.len() ==> s[first_dot(s) as int] == DOT,
        forall|j: int| 0 <= j < first_dot(s) ==> s[j] != DOT,
    decreases s.len(),
{
    if s.len() > 0 && s[0] != DOT {
        lemma_first_dot(s.skip(1));
        assert forall|j: int| 0 <= j < first_dot(s) implies s[j] != DOT by {
            if j > 0 {
                assert(s.skip(1)[j - 1] != DOT);
            }
        }
    }
}

/// Every label of the name (a maximal dot-free run) is at most 63 bytes long,
/// so that its length fits the low six bits of a length byte.
pub open spec fn valid_dns_name(s: Seq<u8>) -> bool
    decreases s.len(),
{
    let i = first_dot(s);
    if i >= s.len() {
        s.len() <= 63
    } else {
        i <= 63 && valid_dns_name(s.skip(i as int + 1))
    }
}

/// The wire encoding of a name: each label prefixed by its length, then a
/// zero terminator.  No compression is ever applied on encode.
pub open spec fn spec_encode_name(s: Seq<u8>) -> Seq<u8>
    decreases s.len(),
{
    let i = first_dot(s);
    if i >= s.len() {
        seq![s.len() as u8] + s + seq![0u8]
    } else {
        seq![i as u8] + s.take(i as int) + spec_encode_name(s.skip(i as int + 1))
    }
}

/// Appends `src[from..to]` to `out`.
pub(crate) fn push_range(out: &mut Vec<u8>, src: &[u8], from: usize, to: usize)
    requires
        from <= to <= src@.len(),
    ensures
        final(out)@ == old(out)@ + src@.subrange(from as int, to as int),
{
    let mut k = from;
    while k < to
        invariant
            from <= k <= to <= src@.len(),
            out@ == old(out)@ + src@.subrange(from as int, k as int),
        decreases to - k,
    {
        out.push(src[k]);
        assert(src@.subrange(from as int, k as int).push(src@[k as int]) =~= src@.subrange(
            from as int,
            k + 1 as int,
        ));
        k += 1;
    }
}

/// Finds the end of the label that starts at `start`: the index of the next
/// dot, or the end of the name.
fn find_dot(name: &[u8], start: usize) -> (i: usize)
    requires
        start <= name@.len(),
    ensures
        start <= i <= name@.len(),
        i - start == first_dot(name@.skip(start as int)),
{
    let ghost s = name@.skip(start as int);
    let mut i = start;
    while i < name.len() && *slice_index_get(name, i) != DOT
        invariant
            start <= i <= name@.len(),
            forall|j: int| start <= j < i ==> name@[j] != DOT,
        decreases name@.len() - i,
    {
        i += 1;
    }
    proof {
        lemma_first_dot(s);
        assert forall|k: int| 0 <= k < i - start implies s[k] != DOT by {
            assert(name@[start + k] != DOT);
        }
        if i < name@.len() {
            assert(s[i - start] == name@[i as int]);
        }
        assert(first_dot(s) == i - start) by {
            if first_dot(s) < i - start {
                assert(s[first_dot(s) as int] == DOT);
            } else if first_dot(s) > i - start {
                assert(i < name@.len());
            }
        }
    }
    i
}

/// Appends the encoding of the name's tail that starts at `start` to `out`.
fn encode_name_from(name: &[u8], start: usize, out: &mut Vec<u8>)
    requires
        start <= name@.len(),
        valid_dns_name(name@.skip(start as int)),
    ensures
        final(out)@ == old(out)@ + spec_encode_name(name@.skip(start as int)),
    decreases name@.len() - start,
{
    let ghost s = name@.skip(start as int);
    let i = find_dot(name, start);
    out.push((i - start) as u8);
    push_range(out, name, start, i);
    assert(name@.subrange(start as int, i as int) =~= s.take(i - start));
    if i < name.len() {
        proof {
            assert(name@.skip(i + 1 as int) =~= s.skip(i - start + 1));
        }
        encode_name_from(name, i + 1, out);
        proof {
            assert(out@ =~= old(out)@ + spec_encode_name(s));
        }
    } else {
        out.push(0);
        proof {
            assert(s.take(i - start) =~= s);
            assert(out@ =~= old(out)@ + spec_encode_name(s));
        }
    }
}

/// Encodes a name given as raw bytes.
pub fn encode_name_bytes(name: &[u8]) -> (r: Vec<u8>)
    requires
        valid_dns_name(name@),
    ensures
        r@ == spec_encode_name(name@),
{
    let mut out: Vec<u8> = Vec::new();
    assert(name@.skip(0) =~= name@);
    encode_name_from(name, 0, &mut out);
    out
}

/// Encodes a printable domain name: split on `.`, prefix each label with a
/// one-byte length, terminate with a zero byte.  A label longer than 63
/// bytes is a caller error, ruled out by the precondition.
pub fn encode_dns_name(name: &str) -> (r: Vec<u8>)
    requires
        name.is_ascii(),
        valid_dns_name(str_bytes(name@)),
    ensures
        r@ == spec_encode_name(str_bytes(name@)),
{
    let bytes = name.as_bytes();
    proof {
        is_ascii_spec_bytes(name);
        assert(bytes@ =~= str_bytes(name@));
    }
    encode_name_bytes(bytes)
}

/// The absolute offset a two-byte compression pointer refers to: the low six
/// bits of the first byte and all eight of the second.
pub open spec fn ptr_target(len_byte: u8, next: u8) -> int {
    ((len_byte & 0x3f) as int) * 256 + (next as int)
}

/// The reference decoder for a name starting at `cursor`.  It yields the
/// bytes consumed in the enclosing structure and the label sequence, or the
/// error the decode fails with.  `visited` holds every offset already reached
/// through a compression pointer: jumping to one of them again is a cycle and
/// fails with `InvalidPointer`.  `budget` bounds the number of jumps so that
/// the recursion is well founded; started at `buf.len()`, it cannot run out
/// before a cycle is found, since every jump adds a distinct offset below
/// `buf.len()` to `visited`.
pub open spec fn spec_decode_labels(
    buf: Seq<u8>,
    cursor: int,
    visited: Seq<int>,
    budget: nat,
) -> Result<(int, Seq<Seq<u8>>), DnsError>
    decreases budget, (if cursor <= buf.len() { buf.len() - cursor } else { 0 }),
{
    if cursor < 0 || cursor >= buf.len() {
        Err(DnsError::Truncated)
    } else {
        let len_byte = buf[cursor];
        if len_byte == 0 {
            Ok((1, Seq::empty()))
        } else if len_byte & 0xc0 != 0 {
            if cursor + 1 >= buf.len() {
                Err(DnsError::Truncated)
            } else {
                let target = ptr_target(len_byte, buf[cursor + 1]);
                if target >= buf.len() || visited.contains(target) || budget == 0 {
                    Err(DnsError::InvalidPointer)
                } else {
                    match spec_decode_labels(buf, target, visited.push(target), (budget - 1) as nat) {
                        Ok(p) => Ok((2, p.1)),
                        Err(e) => Err(e),
                    }
                }
            }
        } else {
            let end = cursor + 1 + len_byte;
            if end > buf.len() {
                Err(DnsError::Truncated)
            } else {
                match spec_decode_labels(buf, end, visited, budget) {
                    Ok(p) => Ok((1 + len_byte + p.0, seq![buf.subrange(cursor + 1, end)] + p.1)),
                    Err(e) => Err(e),
                }
            }
        }
    }
}

/// Labels joined with dots into a printable name.
pub open spec fn spec_join_dots(labels: Seq<Seq<u8>>) -> Seq<u8>
    decreases labels.len(),
{
    if labels.len() == 0 {
        Seq::empty()
    } else if labels.len() == 1 {
        labels[0]
    } else {
        spec_join_dots(labels.drop_last()) + seq![DOT] + labels.last()
    }
}

proof fn lemma_join_push(labels: Seq<Seq<u8>>, l: Seq<u8>)
    ensures
        spec_join_dots(labels.push(l)) == if labels.len() == 0 {
            l
        } else {
            spec_join_dots(labels) + seq![DOT] + l
        },
{
    assert(labels.push(l).drop_last() =~= labels);
    assert(labels.push(l).last() == l);
    if labels.len() == 0 {
        assert(labels.push(l)[0] == l);
    }
}

/// What decoding the name at `cursor` gives: the bytes consumed at `cursor`
/// (a compression pointer counts as its own two bytes, never as the bytes at
/// its target) and the dot-joined name.
pub open spec fn spec_decode_name(buf: Seq<u8>, cursor: int) -> Result<(int, Seq<u8>), DnsError> {
    match spec_decode_labels(buf, cursor, Seq::empty(), buf.len()) {
        Ok(p) => Ok((p.0, spec_join_dots(p.1))),
        Err(e) => Err(e),
    }
}

/// Whether `x` is among the offsets already reached through a pointer.
fn seen_before(visited: &Vec<usize>, x: usize) -> (r: bool)
    ensures
        r == visited@.map_values(|u: usize| u as int).contains(x as int),
{
    let ghost vm = visited@.map_values(|u: usize| u as int);
    let mut i: usize = 0;
    while i < visited.len()
        invariant
            i <= visited@.len(),
            vm == visited@.map_values(|u: usize| u as int),
            forall|j: int| 0 <= j < i ==> visited@[j] != x,
        decreases visited@.len() - i,
    {
        if visited[i] == x {
            assert(vm[i as int] == x as int);
            return true;
        }
        i += 1;
    }
    assert(forall|j: int| 0 <= j < vm.len() ==> vm[j] != x as int);
    false
}

/// Decodes the name at `cursor_start`, exactly as `spec_decode_name` states:
/// the result is the number of bytes the name occupies in the enclosing
/// structure and the dot-joined labels.  Out-of-range reads fail with
/// `Truncated`; a pointer that leaves the buffer, revisits an offset already
/// jumped to, or chains past the jump allowance fails with `InvalidPointer`,
/// so no crafted buffer can make the decoder loop or recurse without bound.
pub fn decode_name(buf: &[u8], cursor_start: usize) -> (r: Result<(usize, Vec<u8>), DnsError>)
    ensures
        match r {
            Ok(p) => {
                &&& spec_decode_name(buf@, cursor_start as int) == Ok::<(int, Seq<u8>), DnsError>(
                    (p.0 as int, p.1@),
                )
                &&& 1 <= p.0
                &&& cursor_start + p.0 <= buf@.len()
            },
            Err(e) => spec_decode_name(buf@, cursor_start as int) == Err::<(int, Seq<u8>), DnsError>(
                e,
            ),
        },
{
    let buf_len = buf.len();
    let ghost b0: nat = buf@.len() as nat;
    let mut cursor: usize = cursor_start;
    let mut visited: Vec<usize> = Vec::new();
    let mut budget: usize = buf_len;
    let mut name: Vec<u8> = Vec::new();
    let ghost mut glabels: Seq<Seq<u8>> = Seq::empty();
    let mut fixed_consumed: usize = 0;
    let mut jumped: bool = false;
    let mut any_labels: bool = false;
    proof {
        assert(visited@.map_values(|u: usize| u as int) =~= Seq::<int>::empty());
        match spec_decode_labels(buf@, cursor_start as int, Seq::empty(), b0) {
            Ok(p) => {
                assert(Seq::<Seq<u8>>::empty() + p.1 =~= p.1);
            },
            Err(e) => {},
        }
    }
    loop
        invariant
            buf_len == buf@.len(),
            b0 == buf@.len() as nat,
            budget <= buf@.len(),
            !jumped ==> cursor_start <= cursor,
            jumped ==> 1 <= fixed_consumed && cursor_start + fixed_consumed <= buf@.len(),
            name@ == spec_join_dots(glabels),
            any_labels <==> glabels.len() > 0,
            match spec_decode_labels(
                buf@,
                cursor as int,
                visited@.map_values(|u: usize| u as int),
                budget as nat,
            ) {
                Ok(p) => spec_decode_labels(buf@, cursor_start as int, Seq::empty(), b0)
                    == Ok::<(int, Seq<Seq<u8>>), DnsError>(
                    (
                        if jumped {
                            fixed_consumed as int
                        } else {
                            cursor - cursor_start + p.0
                        },
                        glabels + p.1,
                    ),
                ),
                Err(e) => spec_decode_labels(buf@, cursor_start as int, Seq::empty(), b0)
                    == Err::<(int, Seq<Seq<u8>>), DnsError>(e),
            },
        decreases budget, (if cursor <= buf@.len() { buf@.len() - cursor } else { 0 }),
    {
        let ghost vis = visited@.map_values(|u: usize| u as int);
        if cursor >= buf_len {
            proof {
                assert(spec_decode_labels(buf@, cursor as int, vis, budget as nat)
                    == Err::<(int, Seq<Seq<u8>>), DnsError>(DnsError::Truncated));
            }
            return Err(DnsError::Truncated);
        }
        let len_byte = *slice_index_get(buf, cursor);
        if len_byte == 0 {
            let consumed = if jumped {
                fixed_consumed
            } else {
                cursor - cursor_start + 1
            };
            proof {
                assert(glabels + Seq::<Seq<u8>>::empty() =~= glabels);
            }
            return Ok((consumed, name));
        } else if len_byte & 0xc0 != 0 {
            if cursor + 1 >= buf_len {
                proof {
                    assert(spec_decode_labels(buf@, cursor as int, vis, budget as nat)
                        == Err::<(int, Seq<Seq<u8>>), DnsError>(DnsError::Truncated));
                }
                return Err(DnsError::Truncated);
            }
            let b2 = *slice_index_get(buf, cursor + 1);
            assert((len_byte & 0x3f) < 64) by (bit_vector);
            let target = ((len_byte & 0x3f) as usize) * 256 + (b2 as usize);
            assert(target as int == ptr_target(len_byte, b2));
            if target >= buf_len || seen_before(&visited, target) || budget == 0 {
                proof {
                    assert(spec_decode_labels(buf@, cursor as int, vis, budget as nat)
                        == Err::<(int, Seq<Seq<u8>>), DnsError>(DnsError::InvalidPointer));
                }
                return Err(DnsError::InvalidPointer);
            }
            if !jumped {
                fixed_consumed = cursor - cursor_start + 2;
                jumped = true;
            }
            let ghost old_cursor = cursor as int;
            let ghost old_budget = budget as nat;
            visited.push(target);
            proof {
                assert(visited@.map_values(|u: usize| u as int) =~= vis.push(target as int));
            }
            budget = budget - 1;
            cursor = target;
            proof {
                match spec_decode_labels(buf@, cursor as int, vis.push(target as int),
                    budget as nat) {
                    Ok(p) => {
                        assert(spec_decode_labels(buf@, old_cursor, vis, old_budget)
                            == Ok::<(int, Seq<Seq<u8>>), DnsError>((2, p.1)));
                    },
                    Err(e) => {
                        assert(spec_decode_labels(buf@, old_cursor, vis, old_budget)
                            == Err::<(int, Seq<Seq<u8>>), DnsError>(e));
                    },
                }
            }
        } else {
            let label_len = len_byte as usize;
            if label_len > buf_len - (cursor + 1) {
                proof {
                    assert(spec_decode_labels(buf@, cursor as int, vis, budget as nat)
                        == Err::<(int, Seq<Seq<u8>>), DnsError>(DnsError::Truncated));
                }
                return Err(DnsError::Truncated);
            }
            let ghost label = buf@.subrange(cursor + 1, cursor + 1 + label_len);
            let ghost old_glabels = glabels;
            if any_labels {
                name.push(DOT);
            }
            push_range(&mut name, buf, cursor + 1, cursor + 1 + label_len);
            proof {
                lemma_join_push(old_glabels, label);
                glabels = old_glabels.push(label);
                assert(name@ == spec_join_dots(glabels));
            }
            any_labels = true;
            let ghost old_cursor = cursor as int;
            cursor = cursor + 1 + label_len;
            proof {
                match spec_decode_labels(buf@, cursor as int, vis, budget as nat) {
                    Ok(p) => {
                        assert(spec_decode_labels(buf@, old_cursor, vis, budget as nat)
                            == Ok::<(int, Seq<Seq<u8>>), DnsError>(
                            (1 + (len_byte as int) + p.0, seq![label] + p.1),
                        ));
                        assert((old_glabels + (seq![label] + p.1)) =~= (glabels + p.1));
                    },
                    Err(e) => {
                        assert(spec_decode_labels(buf@, old_cursor, vis, budget as nat)
                            == Err::<(int, Seq<Seq<u8>>), DnsError>(e));
                    },
                }
            }
        }
    }
}

/// Whether a printable name given as raw bytes can be encoded: every label
/// is at most 63 bytes long.  Names that come off the wire are arbitrary, so
/// the engine checks them with this before building a query from them.
pub fn is_valid_dns_name(name: &[u8]) -> (r: bool)
    ensures
        r == valid_dns_name(name@),
{
    assert(name@.skip(0) =~= name@);
    valid_name_from(name, 0)
}

/// Whether the name's tail that starts at `start` has only labels of at most
/// 63 bytes.
fn valid_name_from(name: &[u8], start: usize) -> (r: bool)
    requires
        start <= name@.len(),
    ensures
        r == valid_dns_name(name@.skip(start as int)),
    decreases name@.len() - start,
{
    let ghost s = name@.skip(start as int);
    let i = find_dot(name, start);
    if i == name.len() {
        i - start <= 63
    } else if i - start > 63 {
        false
    } else {
        proof {
            assert(name@.skip(i + 1 as int) =~= s.skip(i - start + 1));
        }
        valid_name_from(name, i + 1)
    }
}

/// What decoding a name through the two-byte compression pointer at `cursor`
/// gives: the name at the pointer's 14-bit target offset.
pub open spec fn spec_decode_compressed_name(buf: Seq<u8>, cursor: int) -> Result<
    Seq<u8>,
    DnsError,
> {
    if cursor < 0 || cursor + 1 >= buf.len() {
        Err(DnsError::Truncated)
    } else {
        let target = ptr_target(buf[cursor], buf[cursor + 1]);
        if target >= buf.len() {
            Err(DnsError::InvalidPointer)
        } else {
            match spec_decode_name(buf, target) {
                Ok(p) => Ok(p.1),
                Err(e) => Err(e),
            }
        }
    }
}

/// Decodes the name a compression pointer at `cursor_start` refers to.
pub fn decode_compressed_name(buf: &[u8], cursor_start: usize) -> (r: Result<Vec<u8>, DnsError>)
    ensures
        match r {
            Ok(name) => spec_decode_compressed_name(buf@, cursor_start as int) == Ok::<
                Seq<u8>,
                DnsError,
            >(name@),
            Err(e) => spec_decode_compressed_name(buf@, cursor_start as int) == Err::<
                Seq<u8>,
                DnsError,
            >(e),
        },
{
    if cursor_start >= buf.len() || cursor_start + 1 >= buf.len() {
        return Err(DnsError::Truncated);
    }
    let len_byte = *slice_index_get(buf, cursor_start);
    let b2 = *slice_index_get(buf, cursor_start + 1);
    assert((len_byte & 0x3f) < 64) by (bit_vector);
    let target = ((len_byte & 0x3f) as usize) * 256 + (b2 as usize);
    if target >= buf.len() {
        return Err(DnsError::InvalidPointer);
    }
    match decode_name(buf, target) {
        Ok(p) => Ok(p.1),
        Err(e) => Err(e),
    }
}

/// Every label of the name is between 1 and 63 bytes long.  Such a name has
/// no empty label, so its encoding ends at the terminator and the round trip
/// through the wire form recovers it exactly.
pub open spec fn strict_dns_name(s: Seq<u8>) -> bool
    decreases s.len(),
{
    let i = first_dot(s);
    if i >= s.len() {
        1 <= s.len() <= 63
    } else {
        1 <= i <= 63 && strict_dns_name(s.skip(i as int + 1))
    }
}

/// The labels of a printable name: the dot-separated runs, in order.
pub open spec fn split_labels(s: Seq<u8>) -> Seq<Seq<u8>>
    decreases s.len(),
{
    let i = first_dot(s);
    if i >= s.len() {
        seq![s]
    } else {
        seq![s.take(i as int)] + split_labels(s.skip(i as int + 1))
    }
}

proof fn lemma_join_cons(l: Seq<u8>, ls: Seq<Seq<u8>>)
    ensures
        spec_join_dots(seq![l] + ls) == if ls.len() == 0 {
            l
        } else {
            l + seq![DOT] + spec_join_dots(ls)
        },
    decreases ls.len(),
{
    if ls.len() == 0 {
        assert(seq![l] + ls =~= seq![l]);
        assert((seq![l])[0] == l);
    } else {
        assert((seq![l] + ls).drop_last() =~= seq![l] + ls.drop_last());
        assert((seq![l] + ls).last() == ls.last());
        lemma_join_cons(l, ls.drop_last());
        if ls.len() == 1 {
            assert(spec_join_dots(seq![l] + ls) == l + seq![DOT] + ls[0]);
            assert(spec_join_dots(ls) == ls[0]);
        } else {
            assert((l + seq![DOT] + spec_join_dots(ls.drop_last())) + seq![DOT] + ls.last() =~= l
                + seq![DOT] + (spec_join_dots(ls.drop_last()) + seq![DOT] + ls.last()));
        }
    }
}

proof fn lemma_join_split(s: Seq<u8>)
    ensures
        spec_join_dots(split_labels(s)) == s,
    decreases s.len(),
{
    let i = first_dot(s);
    lemma_first_dot(s);
    if i >= s.len() {
        assert(split_labels(s) == seq![s]);
        assert((seq![s])[0] == s);
    } else {
        lemma_join_split(s.skip(i as int + 1));
        lemma_join_cons(s.take(i as int), split_labels(s.skip(i as int + 1)));
        assert(split_labels(s.skip(i as int + 1)).len() >= 1);
        assert(s.take(i as int) + seq![DOT] + s.skip(i as int + 1) =~= s);
    }
}

proof fn lemma_decode_encoded_labels(
    buf: Seq<u8>,
    cursor: int,
    s: Seq<u8>,
    visited: Seq<int>,
    budget: nat,
)
    requires
        strict_dns_name(s),
        0 <= cursor,
        cursor + spec_encode_name(s).len() <= buf.len(),
        buf.subrange(cursor, cursor + spec_encode_name(s).len() as int) == spec_encode_name(s),
    ensures
        spec_decode_labels(buf, cursor, visited, budget) == Ok::<(int, Seq<Seq<u8>>), DnsError>(
            (spec_encode_name(s).len() as int, split_labels(s)),
        ),
    decreases s.len(),
{
    let enc = spec_encode_name(s);
    let sub = buf.subrange(cursor, cursor + enc.len() as int);
    let i = first_dot(s);
    lemma_first_dot(s);
    assert(sub[0] == buf[cursor + 0]);
    if i >= s.len() {
        // enc == [s.len()] + s + [0]
        let len_byte = s.len() as u8;
        assert(enc[0] == len_byte);
        assert(buf[cursor] == len_byte);
        assert(len_byte & 0xc0 == 0) by (bit_vector)
            requires
                len_byte <= 63,
        ;
        assert forall|k: int| 0 <= k < s.len() implies buf[cursor + 1 + k] == s[k] by {
            assert(sub[1 + k] == buf[cursor + (1 + k)]);
            assert(enc[1 + k] == s[k]);
        }
        assert(buf.subrange(cursor + 1, cursor + 1 + len_byte as int) =~= s);
        let z = 1 + s.len() as int;
        assert(sub[z] == buf[cursor + z]);
        assert(enc[z] == 0);
        assert(buf[cursor + 1 + len_byte as int] == 0);
        assert(spec_decode_labels(buf, cursor + 1 + len_byte as int, visited, budget) == Ok::<
            (int, Seq<Seq<u8>>),
            DnsError,
        >((1, Seq::empty())));
        assert(seq![s] + Seq::<Seq<u8>>::empty() =~= seq![s]);
    } else {
        // enc == [i] + s.take(i) + spec_encode_name(s.skip(i + 1))
        let len_byte = i as u8;
        let tail = s.skip(i as int + 1);
        let enc_tail = spec_encode_name(tail);
        assert(enc[0] == len_byte);
        assert(buf[cursor] == len_byte);
        assert(len_byte != 0);
        assert(len_byte & 0xc0 == 0) by (bit_vector)
            requires
                len_byte <= 63,
        ;
        assert forall|k: int| 0 <= k < i implies buf[cursor + 1 + k] == s.take(i as int)[k] by {
            assert(sub[1 + k] == buf[cursor + (1 + k)]);
            assert(enc[1 + k] == s.take(i as int)[k]);
        }
        assert(buf.subrange(cursor + 1, cursor + 1 + len_byte as int) =~= s.take(i as int));
        let tail_cursor = cursor + 1 + i;
        assert forall|k: int| 0 <= k < enc_tail.len() implies buf.subrange(
            tail_cursor,
            tail_cursor + enc_tail.len() as int,
        )[k] == enc_tail[k] by {
            assert(buf.subrange(tail_cursor, tail_cursor + enc_tail.len() as int)[k] == buf[
                tail_cursor + k]);
            assert(sub[1 + i as int + k] == buf[cursor + (1 + i as int + k)]);
            assert(enc[1 + i as int + k] == enc_tail[k]);
        }
        assert(buf.subrange(tail_cursor, tail_cursor + enc_tail.len() as int) =~= enc_tail);
        lemma_decode_encoded_labels(buf, tail_cursor, tail, visited, budget);
        assert(spec_decode_labels(buf, cursor, visited, budget) == Ok::<
            (int, Seq<Seq<u8>>),
            DnsError,
        >((1 + len_byte as int + enc_tail.len() as int, seq![s.take(i as int)] + split_labels(
            tail,
        ))));
    }
}

/// Round trip of the name codec: a name every label of which is 1 to 63
/// bytes long is recovered exactly — the name and the consumed length both —
/// by decoding its own encoding wherever that stands in a buffer.
pub proof fn lemma_name_roundtrip(buf: Seq<u8>, cursor: int, s: Seq<u8>)
    requires
        strict_dns_name(s),
        0 <= cursor,
        cursor + spec_encode_name(s).len() <= buf.len(),
        buf.subrange(cursor, cursor + spec_encode_name(s).len() as int) == spec_encode_name(s),
    ensures
        spec_decode_name(buf, cursor) == Ok::<(int, Seq<u8>), DnsError>(
            (spec_encode_name(s).len() as int, s),
        ),
{
    lemma_decode_encoded_labels(buf, cursor, s, Seq::empty(), buf.len() as nat);
    lemma_join_split(s);
}

/// Cycle safety: wherever a name starts with a compression pointer to an
/// offset that itself holds a pointer back to the first offset, the decode
/// fails with `InvalidPointer` — whatever else the buffer holds, the chain
/// is cut at the first revisited offset instead of looping forever.
pub proof fn lemma_pointer_cycle_fails(buf: Seq<u8>, a: int, b: int)
    requires
        0 <= a,
        0 <= b,
        a + 1 < buf.len(),
        b + 1 < buf.len(),
        buf[a] & 0xc0 != 0,
        ptr_target(buf[a], buf[a + 1]) == b,
        buf[b] & 0xc0 != 0,
        ptr_target(buf[b], buf[b + 1]) == a,
    ensures
        spec_decode_name(buf, a) == Err::<(int, Seq<u8>), DnsError>(DnsError::InvalidPointer),
{
    let n = buf.len() as nat;
    let la = buf[a];
    let lb = buf[b];
    assert(la != 0) by (bit_vector)
        requires
            la & 0xc0 != 0,
    ;
    assert(lb != 0) by (bit_vector)
        requires
            lb & 0xc0 != 0,
    ;
    let v0 = Seq::<int>::empty();
    let v1 = v0.push(b);
    assert(!v0.contains(b)) by {
        assert(v0.len() == 0);
    }
    assert(v1[0] == b);
    assert(v1.contains(b));
    if a == b {
        assert(spec_decode_labels(buf, b, v1, (n - 1) as nat) == Err::<
            (int, Seq<Seq<u8>>),
            DnsError,
        >(DnsError::InvalidPointer));
    } else {
        assert(!v1.contains(a)) by {
            assert(forall|j: int| 0 <= j < v1.len() ==> #[trigger] v1[j] == b);
        }
        let v2 = v1.push(a);
        assert(v2[0] == b);
        assert(v2.contains(b));
        assert(spec_decode_labels(buf, a, v2, (n - 2) as nat) == Err::<
            (int, Seq<Seq<u8>>),
            DnsError,
        >(DnsError::InvalidPointer));
        assert(spec_decode_labels(buf, b, v1, (n - 1) as nat) == Err::<
            (int, Seq<Seq<u8>>),
            DnsError,
        >(DnsError::InvalidPointer));
    }
    assert(spec_decode_labels(buf, a, v0, n) == Err::<(int, Seq<Seq<u8>>), DnsError>(
        DnsError::InvalidPointer,
    ));
}

} // verus!
